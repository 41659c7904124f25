use vstd::prelude::*;
use vstd::string::*;

verus! {

/// One classification rule: files whose extension is `ext` are routed to the
/// destination `dest`, a path interpreted relative to the target directory.
pub struct Rule {
    pub ext: String,
    pub dest: String,
}

impl View for Rule {
    type V = (Seq<char>, Seq<char>);

    open spec fn view(&self) -> (Seq<char>, Seq<char>) {
        (self.ext@, self.dest@)
    }
}

/// Lexicographic order on character sequences, by code point.
pub open spec fn str_lt(a: Seq<char>, b: Seq<char>) -> bool
    decreases a.len(),
{
    if b.len() == 0 {
        false
    } else if a.len() == 0 {
        true
    } else if a[0] == b[0] {
        str_lt(a.drop_first(), b.drop_first())
    } else {
        (a[0] as u32) < (b[0] as u32)
    }
}

pub proof fn lemma_str_lt_irrefl(a: Seq<char>)
    ensures
        !str_lt(a, a),
    decreases a.len(),
{
    if a.len() > 0 {
        lemma_str_lt_irrefl(a.drop_first());
    }
}

pub proof fn lemma_str_lt_trans(a: Seq<char>, b: Seq<char>, c: Seq<char>)
    requires
        str_lt(a, b),
        str_lt(b, c),
    ensures
        str_lt(a, c),
    decreases a.len() + b.len() + c.len(),
{
    if a.len() > 0 && b.len() > 0 && c.len() > 0 {
        if a[0] == b[0] && b[0] == c[0] {
            lemma_str_lt_trans(a.drop_first(), b.drop_first(), c.drop_first());
        }
    }
}

/// Two sequences that each fail to precede the other are equal.
pub proof fn lemma_str_lt_connected(a: Seq<char>, b: Seq<char>)
    requires
        !str_lt(a, b),
        !str_lt(b, a),
    ensures
        a == b,
    decreases a.len(),
{
    if a.len() > 0 && b.len() > 0 && a[0] == b[0] {
        lemma_str_lt_connected(a.drop_first(), b.drop_first());
        assert(a =~= seq![a[0]] + a.drop_first());
        assert(b =~= seq![b[0]] + b.drop_first());
    } else if a.len() > 0 && b.len() > 0 {
        assert((a[0] as u32) == (b[0] as u32));
        vstd::utf8::char_u32_cast(a[0], a[0] as u32);
        vstd::utf8::char_u32_cast(b[0], b[0] as u32);
        assert(false);
    } else {
        assert(a =~= b);
    }
}

/// The keys of a rule list, in order.
pub open spec fn key_seq(m: Seq<(Seq<char>, Seq<char>)>) -> Seq<Seq<char>> {
    m.map(|i: int, p: (Seq<char>, Seq<char>)| p.0)
}

pub open spec fn strictly_sorted(ks: Seq<Seq<char>>) -> bool {
    forall|i: int, j: int| 0 <= i < j < ks.len() ==> #[trigger] str_lt(ks[i], ks[j])
}

/// The destination that a rule list gives a key: the first match.
pub open spec fn spec_lookup(m: Seq<(Seq<char>, Seq<char>)>, k: Seq<char>) -> Option<Seq<char>>
    decreases m.len(),
{
    if m.len() == 0 {
        None
    } else if m[0].0 == k {
        Some(m[0].1)
    } else {
        spec_lookup(m.drop_first(), k)
    }
}

pub open spec fn spec_contains_key(m: Seq<(Seq<char>, Seq<char>)>, k: Seq<char>) -> bool {
    spec_lookup(m, k) is Some
}

pub proof fn lemma_lookup_append(
    m1: Seq<(Seq<char>, Seq<char>)>,
    m2: Seq<(Seq<char>, Seq<char>)>,
    k: Seq<char>,
)
    ensures
        spec_lookup(m1 + m2, k) == (match spec_lookup(m1, k) {
            Some(v) => Some(v),
            None => spec_lookup(m2, k),
        }),
    decreases m1.len(),
{
    if m1.len() == 0 {
        assert(m1 + m2 =~= m2);
    } else {
        assert((m1 + m2)[0] == m1[0]);
        if m1[0].0 != k {
            lemma_lookup_append(m1.drop_first(), m2, k);
            assert((m1 + m2).drop_first() =~= m1.drop_first() + m2);
        }
    }
}

/// A key that every key of a list precedes is not in the list.
pub proof fn lemma_lookup_all_below(m: Seq<(Seq<char>, Seq<char>)>, k: Seq<char>)
    requires
        forall|i: int| 0 <= i < m.len() ==> str_lt(#[trigger] key_seq(m)[i], k),
    ensures
        spec_lookup(m, k) is None,
    decreases m.len(),
{
    if m.len() > 0 {
        assert(str_lt(key_seq(m)[0], k));
        lemma_str_lt_irrefl(k);
        assert(m[0].0 != k);
        assert(forall|i: int|
            0 <= i < m.drop_first().len() ==> #[trigger] key_seq(m.drop_first())[i] == key_seq(
                m,
            )[i + 1]);
        lemma_lookup_all_below(m.drop_first(), k);
    }
}

/// A list of keys that grows past its last element stays strictly sorted.
pub proof fn lemma_sorted_push(ks: Seq<Seq<char>>, k: Seq<char>)
    requires
        strictly_sorted(ks),
        ks.len() > 0 ==> str_lt(ks.last(), k),
    ensures
        strictly_sorted(ks.push(k)),
{
    assert forall|i: int, j: int| 0 <= i < j < ks.push(k).len() implies str_lt(
        #[trigger] ks.push(k)[i],
        #[trigger] ks.push(k)[j],
    ) by {
        if j < ks.len() {
            assert(ks.push(k)[i] == ks[i] && ks.push(k)[j] == ks[j]);
        } else {
            assert(ks.push(k)[j] == k);
            assert(ks.push(k)[i] == ks[i]);
            if i < ks.len() - 1 {
                assert(str_lt(ks[i], ks.last()));
                lemma_str_lt_trans(ks[i], ks.last(), k);
            }
        }
    }
}

pub open spec fn entries_view(es: Seq<Rule>) -> Seq<(Seq<char>, Seq<char>)> {
    Seq::new(es.len(), |i: int| es[i]@)
}

/// An ordered set of rules: keys strictly increasing, hence unique.
pub struct RuleSet {
    pub entries: Vec<Rule>,
}

impl View for RuleSet {
    type V = Seq<(Seq<char>, Seq<char>)>;

    open spec fn view(&self) -> Seq<(Seq<char>, Seq<char>)> {
        entries_view(self.entries@)
    }
}

impl RuleSet {
    pub open spec fn wf(&self) -> bool {
        strictly_sorted(key_seq(self@))
    }

    pub fn new() -> (r: RuleSet)
        ensures
            r@ =~= Seq::<(Seq<char>, Seq<char>)>::empty(),
            r.wf(),
    {
        RuleSet { entries: Vec::new() }
    }

    pub fn len(&self) -> (r: usize)
        ensures
            r == self@.len(),
    {
        self.entries.len()
    }

    /// The rule at an index, for callers that walk the set in key order.
    pub fn pair(&self, i: usize) -> (r: (&String, &String))
        requires
            i < self@.len(),
        ensures
            r.0@ == self@[i as int].0,
            r.1@ == self@[i as int].1,
    {
        (&self.entries[i].ext, &self.entries[i].dest)
    }

    /// The destination mapped to `ext`, if any.
    pub fn get(&self, ext: &String) -> (r: Option<&String>)
        ensures
            match r {
                Some(d) => spec_lookup(self@, ext@) == Some(d@),
                None => spec_lookup(self@, ext@) is None,
            },
    {
        let n = self.entries.len();
        let mut i: usize = 0;
        proof {
            assert(self@.skip(0) =~= self@);
        }
        while i < n
            invariant
                i <= n,
                n == self@.len(),
                n == self.entries@.len(),
                spec_lookup(self@, ext@) == spec_lookup(self@.skip(i as int), ext@),
            decreases n - i,
        {
            proof {
                assert(self@.skip(i as int)[0] == self@[i as int]);
            }
            if self.entries[i].ext == *ext {
                return Some(&self.entries[i].dest);
            }
            proof {
                assert(self@.skip(i as int).drop_first() =~= self@.skip(i + 1));
            }
            i = i + 1;
        }
        proof {
            assert(self@.skip(n as int) =~= Seq::<(Seq<char>, Seq<char>)>::empty());
        }
        None
    }

    pub fn contains_key(&self, ext: &String) -> (r: bool)
        ensures
            r == spec_contains_key(self@, ext@),
    {
        match self.get(ext) {
            Some(_) => true,
            None => false,
        }
    }

    /// The place where a rule for `ext` stands or belongs: the first index
    /// whose key does not precede `ext`.
    fn find_slot(&self, ext: &String) -> (idx: usize)
        requires
            self.wf(),
        ensures
            idx <= self@.len(),
            forall|j: int| 0 <= j < idx ==> str_lt(#[trigger] key_seq(self@)[j], ext@),
            idx < self@.len() ==> !str_lt(key_seq(self@)[idx as int], ext@),
    {
        let n = self.entries.len();
        let mut idx: usize = 0;
        while idx < n && str_lt_exec(self.entries[idx].ext.as_str(), ext.as_str())
            invariant
                idx <= n,
                n == self.entries@.len(),
                forall|j: int| 0 <= j < idx ==> str_lt(#[trigger] key_seq(self@)[j], ext@),
            decreases n - idx,
        {
            idx = idx + 1;
        }
        idx
    }

    /// Adds the rule `ext -> dest`, replacing a present rule for the same
    /// extension. Every other mapping is kept, and the keys stay ordered.
    pub fn insert(&mut self, ext: String, dest: String)
        requires
            old(self).wf(),
        ensures
            final(self).wf(),
            spec_lookup(final(self)@, ext@) == Some(dest@),
            forall|k: Seq<char>| k != ext@ ==> #[trigger] spec_lookup(final(self)@, k)
                == spec_lookup(old(self)@, k),
    {
        let ghost m0 = old(self)@;
        let idx = self.find_slot(&ext);
        let same_key = idx < self.entries.len() && self.entries[idx].ext == ext;
        if same_key {
            let _ = self.entries.remove(idx);
        }
        let ghost mm = self@;
        self.entries.insert(idx, Rule { ext, dest });
        proof {
            let m1 = self@;
            let e = ext@;
            let d = dest@;
            let i = idx as int;
            assert(m1 =~= mm.take(i) + seq![(e, d)] + mm.skip(i));
            if same_key {
                assert(mm =~= m0.take(i) + m0.skip(i + 1));
                assert(mm.take(i) =~= m0.take(i));
                assert(mm.skip(i) =~= m0.skip(i + 1));
                assert(m0[i].0 == e);
            } else {
                assert(mm == m0);
                assert(mm.take(i) =~= m0.take(i));
                assert(mm.skip(i) =~= m0.skip(i));
            }
            let pre = m0.take(i);
            let ghost suf = if same_key {
                m0.skip(i + 1)
            } else {
                m0.skip(i)
            };
            assert(m1 =~= pre + (seq![(e, d)] + suf));
            // Keys before the slot precede e; keys from the slot on follow it.
            assert forall|j: int| 0 <= j < pre.len() implies str_lt(
                #[trigger] key_seq(pre)[j],
                e,
            ) by {
                assert(key_seq(pre)[j] == key_seq(m0)[j]);
            }
            assert forall|j: int| 0 <= j < suf.len() implies str_lt(e, #[trigger] key_seq(suf)[j]) by {
                let jj = if same_key {
                    i + 1 + j
                } else {
                    i + j
                };
                assert(suf[j] == m0[jj]);
                if same_key {
                    // the removed key equals e and precedes every later key
                    assert(str_lt(key_seq(m0)[i], key_seq(m0)[jj]));
                    assert(key_seq(m0)[i] == e);
                } else {
                    // the slot key differs from e and does not precede it
                    assert(!str_lt(key_seq(m0)[i], e));
                    assert(key_seq(m0)[i] != e);
                    if !str_lt(e, key_seq(m0)[i]) {
                        lemma_str_lt_connected(key_seq(m0)[i], e);
                        assert(false);
                    }
                    assert(str_lt(e, key_seq(m0)[i]));
                    if jj > i {
                        assert(str_lt(key_seq(m0)[i], key_seq(m0)[jj]));
                        lemma_str_lt_trans(e, key_seq(m0)[i], key_seq(m0)[jj]);
                    }
                }
            }
            // Well-formed again: the three blocks are ordered among themselves.
            assert forall|p: int, q: int| 0 <= p < q < key_seq(m1).len() implies str_lt(
                #[trigger] key_seq(m1)[p],
                #[trigger] key_seq(m1)[q],
            ) by {
                let kp = key_seq(m1)[p];
                let kq = key_seq(m1)[q];
                if p < i && q < i {
                    assert(kp == key_seq(m0)[p] && kq == key_seq(m0)[q]);
                } else if p < i && q == i {
                    assert(kp == key_seq(pre)[p] && kq == e);
                } else if p < i && q > i {
                    assert(kp == key_seq(pre)[p] && kq == key_seq(suf)[q - i - 1]);
                    lemma_str_lt_trans(kp, e, kq);
                } else if p == i && q > i {
                    assert(kp == e && kq == key_seq(suf)[q - i - 1]);
                } else {
                    assert(kp == key_seq(suf)[p - i - 1] && kq == key_seq(suf)[q - i - 1]);
                    let jp = if same_key {
                        i + 1 + (p - i - 1)
                    } else {
                        i + (p - i - 1)
                    };
                    let jq = if same_key {
                        i + 1 + (q - i - 1)
                    } else {
                        i + (q - i - 1)
                    };
                    assert(kp == key_seq(m0)[jp] && kq == key_seq(m0)[jq]);
                    assert(str_lt(key_seq(m0)[jp], key_seq(m0)[jq]));
                }
            }
            // The new key is found.
            assert(forall|j: int| 0 <= j < pre.len() ==> #[trigger] key_seq(pre)[j] != e) by {
                lemma_str_lt_irrefl(e);
            }
            lemma_lookup_all_below(pre, e);
            lemma_lookup_append(pre, seq![(e, d)] + suf, e);
            assert((seq![(e, d)] + suf)[0] == (e, d));
            assert(spec_lookup(seq![(e, d)] + suf, e) == Some(d));
            assert(spec_lookup(m1, e) == Some(d));
            // Every other key is looked up as before.
            assert forall|k: Seq<char>| k != e implies #[trigger] spec_lookup(m1, k) == spec_lookup(
                m0,
                k,
            ) by {
                lemma_lookup_append(pre, seq![(e, d)] + suf, k);
                assert((seq![(e, d)] + suf).drop_first() =~= suf);
                assert(spec_lookup(seq![(e, d)] + suf, k) == spec_lookup(suf, k));
                if same_key {
                    assert(m0 =~= pre + (seq![m0[i]] + m0.skip(i + 1)));
                    lemma_lookup_append(pre, seq![m0[i]] + m0.skip(i + 1), k);
                    assert((seq![m0[i]] + m0.skip(i + 1))[0] == m0[i]);
                    assert((seq![m0[i]] + m0.skip(i + 1)).drop_first() =~= m0.skip(i + 1));
                    assert(spec_lookup(seq![m0[i]] + m0.skip(i + 1), k) == spec_lookup(
                        m0.skip(i + 1),
                        k,
                    ));
                } else {
                    assert(m0 =~= pre + suf);
                    lemma_lookup_append(pre, suf, k);
                }
            }
        }
    }
}

pub fn str_lt_exec(a: &str, b: &str) -> (r: bool)
    ensures
        r == str_lt(a@, b@),
{
    let na = a.unicode_len();
    let nb = b.unicode_len();
    let mut i: usize = 0;
    proof {
        assert(a@.skip(0) =~= a@);
        assert(b@.skip(0) =~= b@);
    }
    while i < na && i < nb
        invariant
            i <= na,
            i <= nb,
            na == a@.len(),
            nb == b@.len(),
            str_lt(a@, b@) == str_lt(a@.skip(i as int), b@.skip(i as int)),
        decreases na - i,
    {
        let ca = a.get_char(i);
        let cb = b.get_char(i);
        proof {
            assert(a@.skip(i as int)[0] == a@[i as int]);
            assert(b@.skip(i as int)[0] == b@[i as int]);
            assert(a@.skip(i as int).drop_first() =~= a@.skip(i + 1));
            assert(b@.skip(i as int).drop_first() =~= b@.skip(i + 1));
        }
        if ca != cb {
            return (ca as u32) < (cb as u32);
        }
        i = i + 1;
    }
    proof {
        if i >= na {
            assert(a@.skip(i as int) =~= Seq::<char>::empty());
        }
        if i >= nb {
            assert(b@.skip(i as int) =~= Seq::<char>::empty());
        }
    }
    i < nb
}

} // verus!
