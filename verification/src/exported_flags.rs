//! Exported flags must guard an API: the flags named in `@FlaggedApi`
//! annotations, the lists of finalized and allowed flags, and the exported
//! flags that nothing accounts for.

use vstd::prelude::*;
use vstd::hash_set::StringHashSet;
use crate::sort::{flags_sorted, sort_parsed_flags, sorted_flags};
use crate::flags::{ParsedFlag, ParsedFlagView, flags_view, fully_qualified_name};
use crate::text::{
    char_is, chars_of, seqs_view, split_by, split_chars, string_from_chars,
    strings_view, trim, trim_chars,
};

verus! {

// ---------------------------------------------------------------------
// Sets of flag names.

/// `names` added one by one to `s`, each only where `s` does not hold it
/// yet.
pub open spec fn add_all(s: Seq<Seq<char>>, names: Seq<Seq<char>>) -> Seq<Seq<char>>
    decreases names.len(),
{
    if names.len() == 0 {
        s
    } else {
        let t = add_all(s, names.drop_last());
        if t.contains(names.last()) {
            t
        } else {
            t.push(names.last())
        }
    }
}

proof fn lemma_add_all_push(s: Seq<Seq<char>>, names: Seq<Seq<char>>, x: Seq<char>)
    ensures
        add_all(s, names.push(x)) == if add_all(s, names).contains(x) {
            add_all(s, names)
        } else {
            add_all(s, names).push(x)
        },
{
    assert(names.push(x).drop_last() == names);
}

/// A set of flag names, which keeps the order in which names were first
/// added.
pub struct FlagSet {
    names: Vec<String>,
    index: StringHashSet,
}

impl View for FlagSet {
    type V = Seq<Seq<char>>;

    closed spec fn view(&self) -> Seq<Seq<char>> {
        strings_view(self.names@)
    }
}

impl FlagSet {
    /// The names are distinct, and the index holds exactly them.
    pub closed spec fn wf(&self) -> bool {
        &&& self.index@ == strings_view(self.names@).to_set()
        &&& strings_view(self.names@).no_duplicates()
    }

    pub proof fn lemma_distinct(&self)
        requires
            self.wf(),
        ensures
            self@.no_duplicates(),
    {
    }

    /// The empty set.
    pub fn new() -> (r: Self)
        ensures
            r.wf(),
            r@ == Seq::<Seq<char>>::empty(),
    {
        let r = FlagSet { names: Vec::new(), index: StringHashSet::new() };
        assert(strings_view(r.names@).to_set() =~= Set::<Seq<char>>::empty());
        r
    }

    pub fn len(&self) -> (r: usize)
        ensures
            r == self@.len(),
    {
        self.names.len()
    }

    pub fn contains(&self, name: &str) -> (r: bool)
        requires
            self.wf(),
        ensures
            r == self@.contains(name@),
    {
        self.index.contains(name)
    }

    /// Adds `name` unless the set holds it; says whether it was added.
    pub fn insert(&mut self, name: String) -> (r: bool)
        requires
            old(self).wf(),
        ensures
            final(self).wf(),
            r == !old(self)@.contains(name@),
            final(self)@ == if r {
                old(self)@.push(name@)
            } else {
                old(self)@
            },
    {
        if self.index.contains(name.as_str()) {
            return false;
        }
        let ghost n0 = strings_view(self.names@);
        self.index.insert(name.clone());
        self.names.push(name);
        proof {
            let n1 = strings_view(self.names@);
            assert(n1 == n0.push(name@));
            assert forall|x: Seq<char>| n1.contains(x) <==> (n0.contains(x) || x == name@) by {
                if n1.contains(x) {
                    let j = choose|j: int| 0 <= j < n1.len() && n1[j] == x;
                    if j < n0.len() {
                        assert(n0[j] == x);
                    }
                }
                if n0.contains(x) {
                    let j = choose|j: int| 0 <= j < n0.len() && n0[j] == x;
                    assert(n1[j] == x);
                }
                if x == name@ {
                    assert(n1[n0.len() as int] == x);
                }
            }
            assert(n1.to_set() =~= n0.to_set().insert(name@));
            assert forall|i: int, j: int|
                0 <= i < n1.len() && 0 <= j < n1.len() && i != j implies n1[i] != n1[j] by {
                if i < n0.len() && j < n0.len() {
                    assert(n1[i] == n0[i] && n1[j] == n0[j]);
                } else if i < n0.len() {
                    assert(n0.contains(n1[i]));
                } else {
                    assert(n0.contains(n1[j]));
                }
            }
        }
        true
    }

    /// Adds each of `names` in turn.
    pub fn extend(&mut self, names: Vec<String>)
        requires
            old(self).wf(),
        ensures
            final(self).wf(),
            final(self)@ == add_all(old(self)@, strings_view(names@)),
    {
        let ghost ns = strings_view(names@);
        let mut i: usize = 0;
        assert(ns.take(0) == Seq::<Seq<char>>::empty());
        while i < names.len()
            invariant
                i <= names.len(),
                ns == strings_view(names@),
                self.wf(),
                self@ == add_all(old(self)@, ns.take(i as int)),
            decreases names.len() - i,
        {
            assert(ns.take(i + 1).drop_last() == ns.take(i as int));
            assert(ns[i as int] == names@[i as int]@);
            proof {
                lemma_add_all_push(old(self)@, ns.take(i as int), ns[i as int]);
            }
            self.insert(names[i].clone());
            i = i + 1;
        }
        assert(ns.take(i as int) == ns);
    }

    /// Removes `name` if the set holds it.
    pub fn remove(&mut self, name: &str)
        requires
            old(self).wf(),
        ensures
            final(self).wf(),
            final(self)@ == old(self)@.filter(|n: Seq<char>| n != name@),
    {
        let ghost pred = |n: Seq<char>| n != name@;
        let ghost s = strings_view(self.names@);
        let mut kept: Vec<String> = Vec::new();
        let mut i: usize = 0;
        assert(s.take(0).filter(pred) =~= Seq::<Seq<char>>::empty());
        while i < self.names.len()
            invariant
                i <= self.names.len(),
                s == strings_view(self.names@),
                s.no_duplicates(),
                pred == (|n: Seq<char>| n != name@),
                strings_view(kept@) == s.take(i as int).filter(pred),
                strings_view(kept@).no_duplicates(),
                forall|x: Seq<char>| strings_view(kept@).contains(x) ==> s.take(i as int).contains(x),
            decreases self.names.len() - i,
        {
            let ghost k0 = strings_view(kept@);
            assert(s.take(i + 1) == s.take(i as int).push(s[i as int]));
            proof {
                s.take(i as int).lemma_filter_push(s[i as int], pred);
            }
            if !crate::text::str_eq(self.names[i].as_str(), name) {
                kept.push(self.names[i].clone());
                proof {
                    let k1 = strings_view(kept@);
                    assert(k1 == k0.push(s[i as int]));
                    assert(!s.take(i as int).contains(s[i as int])) by {
                        if s.take(i as int).contains(s[i as int]) {
                            let j = choose|j: int| 0 <= j < i && s.take(i as int)[j] == s[i as int];
                            assert(s[j] == s[i as int]);
                        }
                    }
                    assert forall|a: int, b: int|
                        0 <= a < k1.len() && 0 <= b < k1.len() && a != b implies k1[a] != k1[b] by {
                        if a < k0.len() && b < k0.len() {
                            assert(k1[a] == k0[a] && k1[b] == k0[b]);
                        } else if a < k0.len() {
                            assert(k0.contains(k1[a]));
                        } else {
                            assert(k0.contains(k1[b]));
                        }
                    }
                    assert forall|x: Seq<char>| k1.contains(x) implies s.take(i + 1).contains(x) by {
                        if k0.contains(x) {
                            let j = choose|j: int| 0 <= j < i && s.take(i as int)[j] == x;
                            assert(s.take(i + 1)[j] == x);
                        } else {
                            assert(s.take(i + 1)[i as int] == x);
                        }
                    }
                }
            } else {
                proof {
                    assert forall|x: Seq<char>| k0.contains(x) implies s.take(i + 1).contains(x) by {
                        let j = choose|j: int| 0 <= j < i && s.take(i as int)[j] == x;
                        assert(s.take(i + 1)[j] == x);
                    }
                }
            }
            i = i + 1;
        }
        assert(s.take(i as int) == s);
        self.index.remove(name);
        proof {
            let k = strings_view(kept@);
            assert forall|x: Seq<char>| k.contains(x) <==> (s.contains(x) && x != name@) by {
                if s.contains(x) && x != name@ {
                    s.lemma_filter_contains_rev(pred, x);
                }
                if k.contains(x) {
                    let j = choose|j: int| 0 <= j < k.len() && k[j] == x;
                    s.lemma_filter_pred(pred, j);
                }
            }
            assert(k.to_set() =~= self.index@);
        }
        self.names = kept;
    }

    /// The names, in the order in which they were first added.
    pub fn names(&self) -> (r: Vec<String>)
        ensures
            strings_view(r@) == self@,
    {
        crate::text::clone_strings(&self.names)
    }
}

// ---------------------------------------------------------------------
// The `@FlaggedApi` annotations of an API signature file.

/// The pattern that finds the flag of each `@FlaggedApi("...")`
/// annotation, across lines.
pub open spec fn flagged_api_pattern() -> Seq<char> {
    "(?ms)@FlaggedApi\\(\"(.*?)\"\\)"@
}

/// Whether `regex::Regex::new` accepts `pattern`.
pub uninterp spec fn regex_accepts_pattern(pattern: Seq<char>) -> bool;

/// For each match of `pattern` in `haystack`, from left to right, what
/// its first capture group matched, if it took part in the match.
pub uninterp spec fn regex_group_one(pattern: Seq<char>, haystack: Seq<char>) -> Seq<
    Option<Seq<char>>,
>;

#[verifier::external_type_specification]
#[verifier::external_body]
pub struct ExRegexError(regex::Error);

pub open spec fn opt_strings_view(v: Seq<Option<String>>) -> Seq<Option<Seq<char>>> {
    v.map_values(
        |o: Option<String>|
            match o {
                Some(s) => Some(s@),
                None => None,
            },
    )
}

/// Compiles `pattern` with `regex::Regex::new` and runs
/// `Regex::captures_iter` over `haystack`, keeping what the first group of
/// each match matched (`Captures::get(1)`). The contract claims that
/// compiling fails exactly on the patterns that `regex_accepts_pattern`
/// refuses, and that the groups are the ones `regex_group_one` names: both
/// depend on the pattern and the haystack alone.
#[verifier::external_body]
fn capture_group_one(pattern: &str, haystack: &str) -> (r: Result<Vec<Option<String>>, regex::Error>)
    ensures
        r is Ok <==> regex_accepts_pattern(pattern@),
        r is Ok ==> opt_strings_view(r->Ok_0@) == regex_group_one(pattern@, haystack@),
{
    let re = regex::Regex::new(pattern)?;
    Ok(re.captures_iter(haystack).map(|caps| caps.get(1).map(|m| m.as_str().to_owned())).collect())
}

/// The values that are present, in order.
pub open spec fn present(v: Seq<Option<Seq<char>>>) -> Seq<Seq<char>>
    decreases v.len(),
{
    if v.len() == 0 {
        Seq::empty()
    } else {
        let r = present(v.drop_last());
        match v.last() {
            Some(s) => r.push(s),
            None => r,
        }
    }
}

/// The set of the captured flag names.
pub fn flags_of_captures(captures: Vec<Option<String>>) -> (r: FlagSet)
    ensures
        r.wf(),
        r@ == add_all(Seq::empty(), present(opt_strings_view(captures@))),
{
    let ghost cs = opt_strings_view(captures@);
    let mut r = FlagSet::new();
    let mut i: usize = 0;
    assert(cs.take(0) == Seq::<Option<Seq<char>>>::empty());
    while i < captures.len()
        invariant
            i <= captures.len(),
            cs == opt_strings_view(captures@),
            r.wf(),
            r@ == add_all(Seq::empty(), present(cs.take(i as int))),
        decreases captures.len() - i,
    {
        assert(cs.take(i + 1).drop_last() == cs.take(i as int));
        match &captures[i] {
            Some(name) => {
                assert(present(cs.take(i + 1)) == present(cs.take(i as int)).push(name@));
                proof {
                    lemma_add_all_push(Seq::empty(), present(cs.take(i as int)), name@);
                }
                r.insert(name.clone());
            },
            None => {},
        }
        i = i + 1;
    }
    assert(cs.take(i as int) == cs);
    r
}

/// Why an exported-flag check could not run.
#[derive(Debug)]
pub enum ExportedFlagError {
    /// The annotation pattern was refused by the regex engine.
    InvalidPattern,
}

/// The flags named in the `@FlaggedApi` annotations of an API signature
/// file.
pub open spec fn flagged_api_flags(text: Seq<char>) -> Seq<Seq<char>> {
    add_all(Seq::empty(), present(regex_group_one(flagged_api_pattern(), text)))
}

/// All flags used with `@FlaggedApi` annotations in an API signature file.
pub fn extract_flagged_api_flags(text: &str) -> (r: Result<FlagSet, ExportedFlagError>)
    ensures
        regex_accepts_pattern(flagged_api_pattern()) ==> r is Ok && r->Ok_0.wf() && r->Ok_0@
            == flagged_api_flags(text@),
        !regex_accepts_pattern(flagged_api_pattern()) ==> r is Err,
{
    match capture_group_one("(?ms)@FlaggedApi\\(\"(.*?)\"\\)", text) {
        Ok(captures) => Ok(flags_of_captures(captures)),
        Err(_) => Err(ExportedFlagError::InvalidPattern),
    }
}

// ---------------------------------------------------------------------
// Lists of flag names.

/// The flag names of a list: each line trimmed, without empty lines and
/// lines that start with `/`.
pub open spec fn listed_flags(lines: Seq<Seq<char>>) -> Seq<Seq<char>>
    decreases lines.len(),
{
    if lines.len() == 0 {
        Seq::empty()
    } else {
        let r = listed_flags(lines.drop_last());
        let t = trim(lines.last());
        if t.len() > 0 && t[0] != '/' {
            r.push(t)
        } else {
            r
        }
    }
}

/// The flag names of a list, one per line.
pub open spec fn flag_list(text: Seq<char>) -> Seq<Seq<char>> {
    add_all(Seq::empty(), listed_flags(split_by(text, char_is('\n'))))
}

/// Reads a list of flag names, one per line; blank lines and lines that
/// start with `/` are skipped.
pub fn read_flag_from_binary(text: &str) -> (r: FlagSet)
    ensures
        r.wf(),
        r@ == flag_list(text@),
{
    let chars = chars_of(text);
    let lines = split_chars(&chars, '\n');
    let ghost ls = split_by(text@, char_is('\n'));
    assert(seqs_view(lines@) == ls);
    let mut r = FlagSet::new();
    let mut i: usize = 0;
    assert(ls.take(0) == Seq::<Seq<char>>::empty());
    while i < lines.len()
        invariant
            i <= lines.len(),
            seqs_view(lines@) == ls,
            r.wf(),
            r@ == add_all(Seq::empty(), listed_flags(ls.take(i as int))),
        decreases lines.len() - i,
    {
        assert(ls.take(i + 1).drop_last() == ls.take(i as int));
        assert(ls[i as int] == lines@[i as int]@);
        let line = &lines[i];
        let t = trim_chars(line, 0, line.len());
        assert(line@.subrange(0, line@.len() as int) == line@);
        if t.len() > 0 && t[0] != '/' {
            proof {
                lemma_add_all_push(Seq::empty(), listed_flags(ls.take(i as int)), t@);
            }
            r.insert(string_from_chars(t.as_slice()));
        }
        i = i + 1;
    }
    assert(ls.take(i as int) == ls);
    r
}

// ---------------------------------------------------------------------
// Exported flags.

/// The fully qualified names of the exported flags, in order.
pub open spec fn exported_names(flags: Seq<ParsedFlagView>) -> Seq<Seq<char>>
    decreases flags.len(),
{
    if flags.len() == 0 {
        Seq::empty()
    } else {
        let r = exported_names(flags.drop_last());
        if flags.last().is_exported {
            r.push(fully_qualified_name(flags.last()))
        } else {
            r
        }
    }
}

/// The fully qualified names of the exported flags.
pub fn get_exported_flags(flags: &Vec<ParsedFlag>) -> (r: FlagSet)
    ensures
        r.wf(),
        r@ == add_all(Seq::empty(), exported_names(flags_view(flags@))),
{
    let ghost fv = flags_view(flags@);
    let mut r = FlagSet::new();
    let mut i: usize = 0;
    assert(fv.take(0) == Seq::<ParsedFlagView>::empty());
    while i < flags.len()
        invariant
            i <= flags.len(),
            fv == flags_view(flags@),
            r.wf(),
            r@ == add_all(Seq::empty(), exported_names(fv.take(i as int))),
        decreases flags.len() - i,
    {
        assert(fv.take(i + 1).drop_last() == fv.take(i as int));
        assert(fv[i as int] == flags@[i as int]@);
        if flags[i].is_exported {
            proof {
                lemma_add_all_push(
                    Seq::empty(),
                    exported_names(fv.take(i as int)),
                    fully_qualified_name(fv[i as int]),
                );
            }
            r.insert(flags[i].fully_qualified_name());
        }
        i = i + 1;
    }
    assert(fv.take(i as int) == fv);
    r
}

/// The index of the last `.` in `s`, or -1 where there is none.
pub open spec fn last_dot(s: Seq<char>) -> int
    decreases s.len(),
{
    if s.len() == 0 {
        -1
    } else if s.last() == '.' {
        s.len() - 1
    } else {
        last_dot(s.drop_last())
    }
}

proof fn lemma_last_dot(s: Seq<char>)
    ensures
        -1 <= last_dot(s) < s.len(),
        last_dot(s) >= 0 ==> s[last_dot(s)] == '.',
        forall|k: int| last_dot(s) < k < s.len() ==> s[k] != '.',
    decreases s.len(),
{
    if s.len() > 0 && s.last() != '.' {
        lemma_last_dot(s.drop_last());
        assert forall|k: int| last_dot(s) < k < s.len() implies s[k] != '.' by {
            if k < s.len() - 1 {
                assert(s[k] == s.drop_last()[k]);
            }
        }
    }
}

/// The flag's package (the text before its last dot) is on the list of
/// allowed packages.
pub open spec fn package_allowed(flag: Seq<char>, packages: Seq<Seq<char>>) -> bool {
    last_dot(flag) >= 0 && packages.contains(flag.take(last_dot(flag)))
}

/// The exported flags that guard no API: not used with `@FlaggedApi`, not
/// finalized before, not allowed by name and not of an allowed package.
pub open spec fn unaccounted_flags(
    all: Seq<Seq<char>>,
    used: Seq<Seq<char>>,
    finalized: Seq<Seq<char>>,
    allowed: Seq<Seq<char>>,
    packages: Seq<Seq<char>>,
) -> Seq<Seq<char>>
    decreases all.len(),
{
    if all.len() == 0 {
        Seq::empty()
    } else {
        let r = unaccounted_flags(all.drop_last(), used, finalized, allowed, packages);
        let f = all.last();
        if !used.contains(f) && !finalized.contains(f) && !allowed.contains(f) && !package_allowed(
            f,
            packages,
        ) {
            r.push(f)
        } else {
            r
        }
    }
}

/// A flag is accounted for when it guards an API, was finalized before, is
/// allowed by name or is of an allowed package.
pub open spec fn accounted_for(
    flag: Seq<char>,
    used: Seq<Seq<char>>,
    finalized: Seq<Seq<char>>,
    allowed: Seq<Seq<char>>,
    packages: Seq<Seq<char>>,
) -> bool {
    used.contains(flag) || finalized.contains(flag) || allowed.contains(flag) || package_allowed(
        flag,
        packages,
    )
}

/// The check passes, reporting nothing, exactly when every exported flag
/// is accounted for; a flag is reported exactly when it is exported and
/// accounted for by nothing; and no flag is reported twice when no flag is
/// listed twice.
pub proof fn lemma_check_passes_iff_accounted(
    all: Seq<Seq<char>>,
    used: Seq<Seq<char>>,
    finalized: Seq<Seq<char>>,
    allowed: Seq<Seq<char>>,
    packages: Seq<Seq<char>>,
)
    ensures
        unaccounted_flags(all, used, finalized, allowed, packages).len() == 0 <==> forall|i: int|
            0 <= i < all.len() ==> accounted_for(#[trigger] all[i], used, finalized, allowed, packages),
        forall|k: Seq<char>|
            #[trigger] unaccounted_flags(all, used, finalized, allowed, packages).contains(k) <==> all.contains(k)
                && !accounted_for(k, used, finalized, allowed, packages),
        all.no_duplicates() ==> unaccounted_flags(
            all,
            used,
            finalized,
            allowed,
            packages,
        ).no_duplicates(),
    decreases all.len(),
{
    if all.len() > 0 {
        let prefix = all.drop_last();
        lemma_check_passes_iff_accounted(prefix, used, finalized, allowed, packages);
        let r0 = unaccounted_flags(prefix, used, finalized, allowed, packages);
        let r = unaccounted_flags(all, used, finalized, allowed, packages);
        let f = all.last();
        assert forall|k: Seq<char>| all.contains(k) && !accounted_for(
            k,
            used,
            finalized,
            allowed,
            packages,
        ) implies r.contains(k) by {
            let m = choose|m: int| 0 <= m < all.len() && all[m] == k;
            if m < all.len() - 1 {
                assert(prefix[m] == k);
                assert(prefix.contains(k));
                assert(unaccounted_flags(prefix, used, finalized, allowed, packages).contains(k));
                assert(r0.contains(k));
                let j = choose|j: int| 0 <= j < r0.len() && r0[j] == k;
                if r != r0 {
                    assert(r == r0.push(f));
                    assert(r[j] == k);
                }
            } else {
                assert(r == r0.push(f));
                assert(r[r0.len() as int] == k);
            }
        }
        if all.no_duplicates() {
            assert(prefix.no_duplicates()) by {
                assert forall|a: int, b: int| 0 <= a < prefix.len() && 0 <= b < prefix.len() && a != b
                    implies prefix[a] != prefix[b] by {
                    assert(prefix[a] == all[a] && prefix[b] == all[b]);
                }
            }
            if r != r0 {
                assert(r == r0.push(f));
                assert(!r0.contains(f)) by {
                    if r0.contains(f) {
                        assert(prefix.contains(f));
                        let m = choose|m: int| 0 <= m < prefix.len() && prefix[m] == f;
                        assert(all[m] == all[all.len() - 1]);
                    }
                }
                assert forall|a: int, b: int| 0 <= a < r.len() && 0 <= b < r.len() && a != b
                    implies r[a] != r[b] by {
                    if a < r0.len() && b < r0.len() {
                        assert(r[a] == r0[a] && r[b] == r0[b]);
                    } else if a < r0.len() {
                        assert(r[a] == r0[a]);
                        assert(r0.contains(r[a]));
                    } else if b < r0.len() {
                        assert(r[b] == r0[b]);
                        assert(r0.contains(r[b]));
                    }
                }
            }
        }
        if r.len() == 0 {
            assert forall|i: int| 0 <= i < all.len() implies accounted_for(
                #[trigger] all[i],
                used,
                finalized,
                allowed,
                packages,
            ) by {
                if i < all.len() - 1 {
                    assert(prefix[i] == all[i]);
                }
            }
        }
        if forall|i: int|
            0 <= i < all.len() ==> accounted_for(#[trigger] all[i], used, finalized, allowed, packages) {
            assert forall|i: int| 0 <= i < prefix.len() implies accounted_for(
                #[trigger] prefix[i],
                used,
                finalized,
                allowed,
                packages,
            ) by {
                assert(prefix[i] == all[i]);
            }
            assert(accounted_for(all[all.len() - 1], used, finalized, allowed, packages));
        }
        assert forall|k: Seq<char>| r.contains(k) implies all.contains(k) && !accounted_for(
            k,
            used,
            finalized,
            allowed,
            packages,
        ) by {
            let j = choose|j: int| 0 <= j < r.len() && r[j] == k;
            if j < r0.len() {
                assert(r[j] == r0[j]);
                assert(r0.contains(k));
                assert(prefix.contains(k));
                let m = choose|m: int| 0 <= m < prefix.len() && prefix[m] == k;
                assert(prefix[m] == all[m]);
                assert(all.contains(k));
            } else {
                assert(r == r0.push(all.last()));
                assert(all[all.len() - 1] == k);
            }
        }
    }
}

/// The package of a fully qualified flag name, where it has one.
fn package_of(flag: &String) -> (r: Option<String>)
    ensures
        last_dot(flag@) >= 0 ==> r is Some && r->Some_0@ == flag@.take(last_dot(flag@)),
        last_dot(flag@) < 0 ==> r is None,
{
    let chars = chars_of(flag.as_str());
    proof {
        lemma_last_dot(chars@);
    }
    let mut i = chars.len();
    while i > 0 && chars[i - 1] != '.'
        invariant
            i <= chars.len(),
            chars@ == flag@,
            forall|k: int| i <= k < chars.len() ==> chars@[k] != '.',
        decreases i,
    {
        i = i - 1;
    }
    if i == 0 {
        assert(last_dot(chars@) < 0) by {
            if last_dot(chars@) >= 0 {
                assert(chars@[last_dot(chars@)] == '.');
            }
        }
        None
    } else {
        assert(last_dot(chars@) == i - 1) by {
            if last_dot(chars@) < i - 1 {
                assert(chars@[i - 1] != '.');
            }
        }
        let r = string_from_chars(&chars.as_slice()[0..i - 1]);
        assert(chars@.subrange(0, i - 1) == flag@.take(i - 1));
        Some(r)
    }
}

/// The exported flags that are not used with `@FlaggedApi`, not finalized
/// before, not allowed by name and not of an allowed package, in the order
/// of `all_flags`.
pub fn check_all_exported_flags(
    flags_used_with_flaggedapi_annotation: &FlagSet,
    all_flags: &FlagSet,
    already_finalized_flags: &FlagSet,
    allow_flag_set: &FlagSet,
    allow_package_set: &FlagSet,
) -> (r: Vec<String>)
    requires
        flags_used_with_flaggedapi_annotation.wf(),
        all_flags.wf(),
        already_finalized_flags.wf(),
        allow_flag_set.wf(),
        allow_package_set.wf(),
    ensures
        strings_view(r@) == unaccounted_flags(
            all_flags@,
            flags_used_with_flaggedapi_annotation@,
            already_finalized_flags@,
            allow_flag_set@,
            allow_package_set@,
        ),
{
    let all = all_flags.names();
    let ghost a = all_flags@;
    let mut r: Vec<String> = Vec::new();
    let mut i: usize = 0;
    assert(a.take(0) == Seq::<Seq<char>>::empty());
    while i < all.len()
        invariant
            i <= all.len(),
            strings_view(all@) == a,
            a == all_flags@,
            flags_used_with_flaggedapi_annotation.wf(),
            already_finalized_flags.wf(),
            allow_flag_set.wf(),
            allow_package_set.wf(),
            strings_view(r@) == unaccounted_flags(
                a.take(i as int),
                flags_used_with_flaggedapi_annotation@,
                already_finalized_flags@,
                allow_flag_set@,
                allow_package_set@,
            ),
        decreases all.len() - i,
    {
        assert(a.take(i + 1).drop_last() == a.take(i as int));
        let flag = &all[i];
        assert(a[i as int] == flag@);
        let package_ok = match package_of(flag) {
            Some(p) => allow_package_set.contains(p.as_str()),
            None => false,
        };
        if !flags_used_with_flaggedapi_annotation.contains(flag.as_str())
            && !already_finalized_flags.contains(flag.as_str()) && !allow_flag_set.contains(
            flag.as_str(),
        ) && !package_ok {
            let ghost r0 = strings_view(r@);
            r.push(flag.clone());
            assert(strings_view(r@) == r0.push(flag@));
        }
        i = i + 1;
    }
    assert(a.take(i as int) == a);
    r
}

/// The flags that the API filter drops: those on the list of flags that
/// guard no API, less those on the list of flags the filter keeps anyway.
pub fn api_filter_list(non_api: &FlagSet, skip: &FlagSet) -> (r: FlagSet)
    requires
        non_api.wf(),
        skip.wf(),
    ensures
        r.wf(),
        r@ == non_api@.filter(|n: Seq<char>| !skip@.contains(n)),
{
    let ghost pred = |n: Seq<char>| !skip@.contains(n);
    let names = non_api.names();
    let ghost s = non_api@;
    proof {
        non_api.lemma_distinct();
    }
    let mut r = FlagSet::new();
    let mut i: usize = 0;
    assert(s.take(0).filter(pred) =~= Seq::<Seq<char>>::empty());
    while i < names.len()
        invariant
            i <= names.len(),
            strings_view(names@) == s,
            s.no_duplicates(),
            skip.wf(),
            pred == (|n: Seq<char>| !skip@.contains(n)),
            r.wf(),
            r@ == s.take(i as int).filter(pred),
        decreases names.len() - i,
    {
        assert(s.take(i + 1) == s.take(i as int).push(s[i as int]));
        proof {
            s.take(i as int).lemma_filter_push(s[i as int], pred);
        }
        assert(names@[i as int]@ == s[i as int]);
        if !skip.contains(names[i].as_str()) {
            proof {
                assert(!s.take(i as int).filter(pred).contains(s[i as int])) by {
                    if s.take(i as int).filter(pred).contains(s[i as int]) {
                        s.take(i as int).lemma_filter_contains_rev(pred, s[i as int]);
                        assert(s.take(i as int).contains(s[i as int]));
                        let k = choose|k: int| 0 <= k < i && s.take(i as int)[k] == s[i as int];
                        assert(s[k] == s[i as int]);
                    }
                }
            }
            r.insert(names[i].clone());
        }
        i = i + 1;
    }
    assert(s.take(i as int) == s);
    r
}

/// The exported flags that are not on the list of flags that guard no API,
/// in order.
pub open spec fn api_flags(flags: Seq<ParsedFlagView>, non_api: Seq<Seq<char>>) -> Seq<
    ParsedFlagView,
>
    decreases flags.len(),
{
    if flags.len() == 0 {
        Seq::empty()
    } else {
        let r = api_flags(flags.drop_last(), non_api);
        let f = flags.last();
        if f.is_exported && !non_api.contains(fully_qualified_name(f)) {
            r.push(f)
        } else {
            r
        }
    }
}

/// Keeps the exported flags that guard an API: those not on the list of
/// flags that guard none; they come out sorted by fully qualified name.
pub fn filter_api_flags(parsed_flags: Vec<ParsedFlag>, non_api_flag_set: &FlagSet) -> (r: Vec<
    ParsedFlag,
>)
    requires
        non_api_flag_set.wf(),
    ensures
        flags_view(r@) == sorted_flags(api_flags(flags_view(parsed_flags@), non_api_flag_set@)),
        flags_sorted(flags_view(r@)),
{
    let ghost fv = flags_view(parsed_flags@);
    let n = parsed_flags.len();
    let mut input = parsed_flags;
    let mut rev: Vec<ParsedFlag> = Vec::new();
    while input.len() > 0
        invariant
            rev.len() + input.len() == n,
            n == fv.len(),
            forall|j: int| 0 <= j < input.len() ==> (#[trigger] input@[j])@ == fv[j],
            forall|j: int| 0 <= j < rev.len() ==> (#[trigger] rev@[j])@ == fv[n - 1 - j],
        decreases input.len(),
    {
        let f = input.pop().unwrap();
        rev.push(f);
    }
    let mut r: Vec<ParsedFlag> = Vec::new();
    assert(fv.take(0) == Seq::<ParsedFlagView>::empty());
    while rev.len() > 0
        invariant
            rev.len() <= n,
            n == fv.len(),
            forall|j: int| 0 <= j < rev.len() ==> (#[trigger] rev@[j])@ == fv[n - 1 - j],
            non_api_flag_set.wf(),
            flags_view(r@) == api_flags(fv.take(n - rev.len()), non_api_flag_set@),
        decreases rev.len(),
    {
        let ghost k = n - rev.len();
        assert(fv.take(k + 1).drop_last() == fv.take(k));
        let flag = rev.pop().unwrap();
        assert(flag@ == fv[k]);
        if flag.is_exported && !non_api_flag_set.contains(flag.fully_qualified_name().as_str()) {
            let ghost r0 = flags_view(r@);
            r.push(flag);
            assert(flags_view(r@) == r0.push(fv[k]));
        }
    }
    assert(fv.take(n as int) == fv);
    sort_parsed_flags(&mut r);
    r
}

/// The flags used with `@FlaggedApi` in any of the API signature files.
pub open spec fn flags_in_files(files: Seq<Seq<char>>) -> Seq<Seq<char>>
    decreases files.len(),
{
    if files.len() == 0 {
        Seq::empty()
    } else {
        add_all(flags_in_files(files.drop_last()), flagged_api_flags(files.last()))
    }
}

/// The exported flags that guard no API, given the parsed flags, the API
/// signature files, the finalized flags, the flags allowed to guard none
/// and the packages allowed to.
pub fn validate_exported_flags(
    parsed_flags: &Vec<ParsedFlag>,
    api_signature_files: &Vec<String>,
    finalized_flags_file: &str,
    non_api_flags: &str,
    allow_flag_package: &str,
) -> (r: Result<Vec<String>, ExportedFlagError>)
    ensures
        (regex_accepts_pattern(flagged_api_pattern()) || api_signature_files.len() == 0) ==> r is Ok
            && strings_view(r->Ok_0@) == unaccounted_flags(
            add_all(Seq::empty(), exported_names(flags_view(parsed_flags@))),
            flags_in_files(strings_view(api_signature_files@)),
            flag_list(finalized_flags_file@),
            flag_list(non_api_flags@),
            flag_list(allow_flag_package@),
        ),
        !regex_accepts_pattern(flagged_api_pattern()) && api_signature_files.len() > 0 ==> r is Err,
{
    let ghost files = strings_view(api_signature_files@);
    let mut used = FlagSet::new();
    let mut i: usize = 0;
    assert(files.take(0) == Seq::<Seq<char>>::empty());
    while i < api_signature_files.len()
        invariant
            i <= api_signature_files.len(),
            files == strings_view(api_signature_files@),
            used.wf(),
            regex_accepts_pattern(flagged_api_pattern()) || i == 0,
            used@ == flags_in_files(files.take(i as int)),
        decreases api_signature_files.len() - i,
    {
        assert(files.take(i + 1).drop_last() == files.take(i as int));
        assert(files[i as int] == api_signature_files@[i as int]@);
        match extract_flagged_api_flags(api_signature_files[i].as_str()) {
            Ok(flags) => {
                used.extend(flags.names());
            },
            Err(e) => {
                return Err(e);
            },
        }
        i = i + 1;
    }
    assert(files.take(i as int) == files);
    let all_flags = get_exported_flags(parsed_flags);
    let already_finalized_flags = read_flag_from_binary(finalized_flags_file);
    let allow_flag_set = read_flag_from_binary(non_api_flags);
    let allow_package_set = read_flag_from_binary(allow_flag_package);
    Ok(
        check_all_exported_flags(
            &used,
            &all_flags,
            &already_finalized_flags,
            &allow_flag_set,
            &allow_package_set,
        ),
    )
}

} // verus!
