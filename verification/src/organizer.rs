use vstd::prelude::*;
use vstd::string::*;
use crate::paths::{
    spec_join, spec_extension, spec_file_name, spec_is_under, join_path, extension_of,
    file_name_of, is_under,
};
use crate::rules::{Rule, RuleSet, spec_lookup, key_seq, strictly_sorted, str_lt};

verus! {

/// What `run_clean` is asked to remove: files of one extension, files under
/// one subdirectory, or every file under the target directory.
#[derive(Clone, Copy, PartialEq, Eq, Structural, Debug)]
pub enum CleaningMode {
    Extension,
    Directory,
    RootDir,
}

impl CleaningMode {
    pub fn to_string(&self) -> (r: String)
        ensures
            r@ == (match *self {
                CleaningMode::Extension => "extension"@,
                CleaningMode::Directory => "directory"@,
                CleaningMode::RootDir => "root-dir"@,
            }),
    {
        match self {
            CleaningMode::Extension => "extension".to_owned(),
            CleaningMode::Directory => "directory".to_owned(),
            CleaningMode::RootDir => "root-dir".to_owned(),
        }
    }
}

/// One move the sort pass decided on: `source` goes into `dest_dir`,
/// ending up at `dest_file`.
pub struct MoveAction {
    pub source: String,
    pub dest_dir: String,
    pub dest_file: String,
}

impl View for MoveAction {
    type V = (Seq<char>, Seq<char>, Seq<char>);

    open spec fn view(&self) -> (Seq<char>, Seq<char>, Seq<char>) {
        (self.source@, self.dest_dir@, self.dest_file@)
    }
}

/// The in-memory configuration: the rule set and the directory it sorts.
/// Rule destinations are kept relative to `sorting_path` and resolved when a
/// move is planned.
pub struct Organizer {
    pub rules: RuleSet,
    pub sorting_path: String,
}

/// The move a rule set prescribes for one file, if any: a file whose
/// extension has a rule goes into the destination joined under the target
/// directory, under its own name.
pub open spec fn spec_move_for(
    rules: Seq<(Seq<char>, Seq<char>)>,
    root: Seq<char>,
    item: Seq<char>,
) -> Option<(Seq<char>, Seq<char>, Seq<char>)> {
    match spec_extension(item) {
        Some(e) => match spec_lookup(rules, e) {
            Some(d) => {
                let dd = spec_join(root, d);
                Some((item, dd, spec_join(dd, spec_file_name(item))))
            },
            None => None,
        },
        None => None,
    }
}

/// The whole plan of a sort pass: the prescribed moves of the items, in
/// order, with the unmatched items skipped.
pub open spec fn spec_sort_plan(
    rules: Seq<(Seq<char>, Seq<char>)>,
    root: Seq<char>,
    items: Seq<Seq<char>>,
) -> Seq<(Seq<char>, Seq<char>, Seq<char>)>
    decreases items.len(),
{
    if items.len() == 0 {
        Seq::empty()
    } else {
        let rest = spec_sort_plan(rules, root, items.drop_last());
        match spec_move_for(rules, root, items.last()) {
            Some(t) => rest.push(t),
            None => rest,
        }
    }
}

pub open spec fn views_of(items: Seq<String>) -> Seq<Seq<char>> {
    Seq::new(items.len(), |i: int| items[i]@)
}

pub open spec fn actions_view(plan: Seq<MoveAction>) -> Seq<(Seq<char>, Seq<char>, Seq<char>)> {
    Seq::new(plan.len(), |i: int| plan[i]@)
}

/// Whether one file is removed by a clean pass over the scanned files.
pub open spec fn spec_clean_selects(
    mode: CleaningMode,
    param: Seq<char>,
    root: Seq<char>,
    f: Seq<char>,
) -> bool {
    match mode {
        CleaningMode::Extension => spec_extension(f) == Some(param),
        CleaningMode::Directory => spec_is_under(f, spec_join(root, param)),
        CleaningMode::RootDir => true,
    }
}

impl Organizer {
    pub open spec fn wf(&self) -> bool {
        self.rules.wf()
    }

    /// Creates an organizer over the given rules, sorting the given directory.
    pub fn new(rules: RuleSet, sorting_path: String) -> (r: Organizer)
        ensures
            r.rules == rules,
            r.sorting_path == sorting_path,
    {
        Organizer { rules, sorting_path }
    }

    /// The built-in rules: executables and torrent metadata get a folder each.
    pub fn get_default_rules() -> (r: RuleSet)
        ensures
            r@ =~= seq![("exe"@, "Executables"@), ("torrent"@, "MetaInfo"@)],
            r.wf(),
    {
        let mut entries: Vec<Rule> = Vec::new();
        entries.push(Rule { ext: "exe".to_owned(), dest: "Executables".to_owned() });
        entries.push(Rule { ext: "torrent".to_owned(), dest: "MetaInfo".to_owned() });
        let r = RuleSet { entries };
        proof {
            reveal_strlit("exe");
            reveal_strlit("torrent");
            assert(r@ =~= seq![("exe"@, "Executables"@), ("torrent"@, "MetaInfo"@)]);
            assert(str_lt("exe"@, "torrent"@));
            assert forall|i: int, j: int| 0 <= i < j < key_seq(r@).len() implies str_lt(
                #[trigger] key_seq(r@)[i],
                #[trigger] key_seq(r@)[j],
            ) by {
                assert(key_seq(r@)[0] == "exe"@ && key_seq(r@)[1] == "torrent"@);
            }
        }
        r
    }

    /// Adds or replaces the rule for `extension`. The destination is stored
    /// as given, relative to the target directory; it is resolved against
    /// `sorting_path` when a move is planned. Nothing is persisted here.
    pub fn add_rule(&mut self, extension: String, destination: String)
        requires
            old(self).wf(),
        ensures
            final(self).wf(),
            final(self).sorting_path == old(self).sorting_path,
            spec_lookup(final(self).rules@, extension@) == Some(destination@),
            forall|k: Seq<char>| k != extension@ ==> #[trigger] spec_lookup(
                final(self).rules@,
                k,
            ) == spec_lookup(old(self).rules@, k),
    {
        self.rules.insert(extension, destination);
    }

    /// Replaces the directory to sort. The rules are untouched: their
    /// destinations are relative, so they move with the new root.
    pub fn reassign_target_directory(&mut self, new_dir: String)
        ensures
            final(self).rules == old(self).rules,
            final(self).sorting_path == new_dir,
    {
        self.sorting_path = new_dir;
    }

    /// Decides which of the scanned files a clean pass removes. `files` is
    /// the recursive file listing under the target directory; the caller
    /// deletes exactly the returned ones.
    pub fn run_clean(&self, mode: &CleaningMode, in_str: &String, files: &Vec<String>) -> (r: Vec<
        String,
    >)
        ensures
            r@ == files@.filter(
                |f: String| spec_clean_selects(*mode, in_str@, self.sorting_path@, f@),
            ),
    {
        let ghost pred = |f: String| spec_clean_selects(*mode, in_str@, self.sorting_path@, f@);
        let dir = join_path(self.sorting_path.as_str(), in_str.as_str());
        let mut r: Vec<String> = Vec::new();
        let n = files.len();
        let mut i: usize = 0;
        proof {
            reveal(Seq::filter);
            assert(r@ =~= files@.take(0).filter(pred));
        }
        while i < n
            invariant
                i <= n,
                n == files@.len(),
                dir@ == spec_join(self.sorting_path@, in_str@),
                pred == (|f: String| spec_clean_selects(*mode, in_str@, self.sorting_path@, f@)),
                r@ == files@.take(i as int).filter(pred),
            decreases n - i,
        {
            let selected = match mode {
                CleaningMode::Extension => match extension_of(files[i].as_str()) {
                    Some(e) => e == *in_str,
                    None => false,
                },
                CleaningMode::Directory => is_under(files[i].as_str(), dir.as_str()),
                CleaningMode::RootDir => true,
            };
            proof {
                assert(selected == pred(files@[i as int]));
            }
            if selected {
                r.push(files[i].clone());
            }
            proof {
                reveal(Seq::filter);
                assert(files@.take(i + 1).drop_last() =~= files@.take(i as int));
                assert(files@.take(i + 1).last() == files@[i as int]);
                assert(r@ =~= files@.take(i + 1).filter(pred));
            }
            i = i + 1;
        }
        proof {
            assert(files@.take(n as int) =~= files@);
        }
        r
    }
}

fn sort_items(items: &Vec<String>, organizer: &Organizer) -> (plan: Vec<MoveAction>)
    requires
        organizer.wf(),
    ensures
        actions_view(plan@) == spec_sort_plan(
            organizer.rules@,
            organizer.sorting_path@,
            views_of(items@),
        ),
{
    let ghost rm = organizer.rules@;
    let ghost root = organizer.sorting_path@;
    let ghost iv = views_of(items@);
    let mut plan: Vec<MoveAction> = Vec::new();
    let n = items.len();
    let mut i: usize = 0;
    proof {
        assert(actions_view(plan@) =~= spec_sort_plan(rm, root, iv.take(0)));
    }
    while i < n
        invariant
            i <= n,
            n == items@.len(),
            organizer.wf(),
            rm == organizer.rules@,
            root == organizer.sorting_path@,
            iv == views_of(items@),
            actions_view(plan@) == spec_sort_plan(rm, root, iv.take(i as int)),
        decreases n - i,
    {
        let ghost plan0 = actions_view(plan@);
        match extension_of(items[i].as_str()) {
            Some(e) => {
                match organizer.rules.get(&e) {
                    Some(d) => {
                        let dd = join_path(organizer.sorting_path.as_str(), d.as_str());
                        let name = file_name_of(items[i].as_str());
                        let df = join_path(dd.as_str(), name.as_str());
                        let action = MoveAction { source: items[i].clone(), dest_dir: dd, dest_file: df };
                        proof {
                            assert(spec_move_for(rm, root, iv[i as int]) == Some(action@));
                            assert(actions_view(plan@.push(action)) =~= plan0.push(action@));
                        }
                        plan.push(action);
                    },
                    None => {
                        proof {
                            assert(spec_move_for(rm, root, iv[i as int]) is None);
                        }
                    },
                }
            },
            None => {
                proof {
                    assert(spec_move_for(rm, root, iv[i as int]) is None);
                }
            },
        }
        proof {
            assert(iv.take(i + 1).drop_last() =~= iv.take(i as int));
            assert(iv.take(i + 1).last() == iv[i as int]);
            assert(actions_view(plan@) =~= spec_sort_plan(rm, root, iv.take(i + 1)));
        }
        i = i + 1;
    }
    proof {
        assert(iv.take(n as int) =~= iv);
    }
    plan
}

/// A sort pass moves exactly the files whose extension has a rule: every
/// planned move belongs to a scanned file and follows its rule, and every
/// scanned file with a mapped extension has its move in the plan. Files with
/// an unmapped or absent extension appear in no move.
pub proof fn lemma_sort_plan_classifies(
    rules: Seq<(Seq<char>, Seq<char>)>,
    root: Seq<char>,
    items: Seq<Seq<char>>,
)
    ensures
        forall|j: int| 0 <= j < spec_sort_plan(rules, root, items).len() ==> {
            let t = #[trigger] spec_sort_plan(rules, root, items)[j];
            items.contains(t.0) && spec_move_for(rules, root, t.0) == Some(t)
        },
        forall|i: int|
            0 <= i < items.len() ==> match spec_move_for(rules, root, #[trigger] items[i]) {
                Some(t) => spec_sort_plan(rules, root, items).contains(t),
                None => true,
            },
    decreases items.len(),
{
    if items.len() > 0 {
        let prev = items.drop_last();
        lemma_sort_plan_classifies(rules, root, prev);
        let plan = spec_sort_plan(rules, root, items);
        let rest = spec_sort_plan(rules, root, prev);
        assert(forall|i: int| 0 <= i < prev.len() ==> #[trigger] items[i] == prev[i]);
        assert(items.last() == items[items.len() - 1]);
        assert forall|j: int| 0 <= j < plan.len() implies {
            let t = #[trigger] plan[j];
            items.contains(t.0) && spec_move_for(rules, root, t.0) == Some(t)
        } by {
            if j < rest.len() {
                assert(plan[j] == rest[j]);
                let w = choose|w: int| 0 <= w < prev.len() && prev[w] == rest[j].0;
                assert(items[w] == rest[j].0);
            } else {
                assert(plan[j].0 == items.last());
            }
        }
        assert forall|i: int|
            0 <= i < items.len() implies match spec_move_for(rules, root, #[trigger] items[i]) {
            Some(t) => plan.contains(t),
            None => true,
        } by {
            match spec_move_for(rules, root, items[i]) {
                Some(t) => {
                    if i < items.len() - 1 {
                        assert(rest.contains(t));
                        let w = choose|w: int| 0 <= w < rest.len() && rest[w] == t;
                        assert(plan[w] == t);
                    } else {
                        assert(plan.last() == t);
                    }
                },
                None => {},
            }
        }
    }
}

/// Once the matched files are gone, a second sort pass plans nothing:
/// the plan over the leftover files is empty.
pub proof fn lemma_sort_plan_idempotent(
    rules: Seq<(Seq<char>, Seq<char>)>,
    root: Seq<char>,
    items: Seq<Seq<char>>,
)
    ensures
        spec_sort_plan(
            rules,
            root,
            items.filter(|f: Seq<char>| spec_move_for(rules, root, f) is None),
        ) =~= Seq::<(Seq<char>, Seq<char>, Seq<char>)>::empty(),
    decreases items.len(),
{
    reveal(Seq::filter);
    let pred = |f: Seq<char>| spec_move_for(rules, root, f) is None;
    if items.len() > 0 {
        lemma_sort_plan_idempotent(rules, root, items.drop_last());
        let left = items.filter(pred);
        if pred(items.last()) {
            assert(left == items.drop_last().filter(pred).push(items.last()));
            assert(left.drop_last() =~= items.drop_last().filter(pred));
            assert(spec_move_for(rules, root, left.last()) is None);
        }
    }
}

/// After `add_rule(ext, dest)`, a sort pass routes a file of extension `ext`
/// into `dest` under the target directory, and plans for files of every
/// other extension exactly what it planned before. (Read operations take the
/// organizer immutably and cannot disturb this.)
pub proof fn lemma_add_rule_routes(
    rules_after: Seq<(Seq<char>, Seq<char>)>,
    rules_before: Seq<(Seq<char>, Seq<char>)>,
    root: Seq<char>,
    ext: Seq<char>,
    dest: Seq<char>,
    f: Seq<char>,
)
    requires
        spec_lookup(rules_after, ext) == Some(dest),
        forall|k: Seq<char>| k != ext ==> #[trigger] spec_lookup(rules_after, k) == spec_lookup(
            rules_before,
            k,
        ),
        spec_extension(f) == Some(ext),
    ensures
        spec_move_for(rules_after, root, f) == Some(
            (f, spec_join(root, dest), spec_join(spec_join(root, dest), spec_file_name(f))),
        ),
        forall|g: Seq<char>| spec_extension(g) != Some(ext) ==> #[trigger] spec_move_for(
            rules_after,
            root,
            g,
        ) == spec_move_for(rules_before, root, g),
{
    assert forall|g: Seq<char>| spec_extension(g) != Some(ext) implies #[trigger] spec_move_for(
        rules_after,
        root,
        g,
    ) == spec_move_for(rules_before, root, g) by {
        match spec_extension(g) {
            Some(e) => {
                assert(e != ext);
                assert(spec_lookup(rules_after, e) == spec_lookup(rules_before, e));
            },
            None => {},
        }
    }
}

/// Cleaning by extension selects exactly the scanned files of that
/// extension: each selected file has it, each file that has it is selected,
/// and no other file is selected. The count of a clean pass is the length
/// of this selection.
pub proof fn lemma_clean_by_extension(
    files: Seq<String>,
    param: Seq<char>,
    root: Seq<char>,
    sel: Seq<String>,
)
    requires
        sel == files.filter(|f: String| spec_clean_selects(CleaningMode::Extension, param, root, f@)),
    ensures
        forall|j: int| 0 <= j < sel.len() ==> spec_extension(#[trigger] sel[j]@) == Some(param),
        forall|i: int|
            0 <= i < files.len() && spec_extension(#[trigger] files[i]@) == Some(param)
                ==> sel.contains(files[i]),
        forall|i: int|
            0 <= i < files.len() && spec_extension(#[trigger] files[i]@) != Some(param)
                ==> !sel.contains(files[i]),
{
    let pred = |f: String| spec_clean_selects(CleaningMode::Extension, param, root, f@);
    assert forall|j: int| 0 <= j < sel.len() implies spec_extension(#[trigger] sel[j]@) == Some(
        param,
    ) by {
        files.lemma_filter_pred(pred, j);
    }
    assert forall|i: int|
        0 <= i < files.len() && spec_extension(#[trigger] files[i]@) == Some(param) implies sel
        .contains(files[i]) by {
        files.lemma_filter_contains(pred, i);
    }
    assert forall|i: int|
        0 <= i < files.len() && spec_extension(#[trigger] files[i]@) != Some(param) implies !sel
        .contains(files[i]) by {
        if sel.contains(files[i]) {
            let w = choose|w: int| 0 <= w < sel.len() && sel[w] == files[i];
            files.lemma_filter_pred(pred, w);
        }
    }
}

/// Cleaning the entire root selects every scanned file, so the count of a
/// clean pass equals the number of files that existed beforehand. The
/// selection never names a directory, so the directory structure stays.
pub proof fn lemma_clean_entire_root(files: Seq<String>, param: Seq<char>, root: Seq<char>)
    ensures
        files.filter(|f: String| spec_clean_selects(CleaningMode::RootDir, param, root, f@))
            =~= files,
    decreases files.len(),
{
    reveal(Seq::filter);
    if files.len() > 0 {
        lemma_clean_entire_root(files.drop_last(), param, root);
    }
}

/// Plans one sort pass: for each scanned file whose extension has a rule,
/// the move into its destination. The caller performs the moves (and may
/// report them first; reporting does not change the plan).
pub fn sort_downloads(organizer: &Organizer, items: &Vec<String>) -> (plan: Vec<MoveAction>)
    requires
        organizer.wf(),
    ensures
        actions_view(plan@) == spec_sort_plan(
            organizer.rules@,
            organizer.sorting_path@,
            views_of(items@),
        ),
{
    sort_items(items, organizer)
}

} // verus!
