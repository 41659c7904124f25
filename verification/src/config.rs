use vstd::prelude::*;
use crate::OrgError;
use crate::codec::{decode_config, spec_decode_config};
use crate::organizer::Organizer;
use crate::paths::{join_path, spec_join};

verus! {

/// The per-user folder that holds the configuration file, under the
/// platform's configuration root.
pub fn get_settings_folder(config_root: &str) -> (r: String)
    ensures
        r@ == spec_join(config_root@, "Downloads Organizer"@),
{
    join_path(config_root, "Downloads Organizer")
}

/// The configuration file itself, inside the settings folder.
pub fn get_settings_file(config_root: &str) -> (r: String)
    ensures
        r@ == spec_join(spec_join(config_root@, "Downloads Organizer"@), "dorg_config.json"@),
{
    let folder = get_settings_folder(config_root);
    join_path(folder.as_str(), "dorg_config.json")
}

/// Builds the organizer a run starts from: the decoded stored text where one
/// exists, else the built-in rules over the platform downloads folder.
pub fn load_organizer(saved: Option<&Vec<char>>, downloads_dir: &String) -> (r: Result<
    Organizer,
    OrgError,
>)
    ensures
        match saved {
            None => r matches Ok(o) && o.rules@ =~= seq![
                ("exe"@, "Executables"@),
                ("torrent"@, "MetaInfo"@),
            ] && o.sorting_path@ == downloads_dir@ && o.wf(),
            Some(t) => match spec_decode_config(t@) {
                Some(mp) => r matches Ok(o) && o.rules@ == mp.0 && o.sorting_path@ == mp.1
                    && o.wf(),
                None => r matches Err(e) && e == OrgError::ConfigCorrupt,
            },
        },
{
    match saved {
        None => Ok(Organizer::new(Organizer::get_default_rules(), downloads_dir.clone())),
        Some(t) => decode_config(t),
    }
}

} // verus!
