//! The content of an api-versions file and its consistency checks: nothing
//! deprecated in the version that added it, SDK versions in range, and no
//! extension version beside the ad services one.

use vstd::prelude::*;
use vstd::hash_set::StringHashSet;
use crate::text::{
    char_is, chars_le, chars_of, seqs_view, split_by, split_chars, str_eq,
    string_from_chars, strings_view,
};

verus! {

/// An api-versions file: its version, its SDKs and its classes, in order of
/// name.
pub struct Api {
    pub version: String,
    pub sdks: Vec<Sdk>,
    pub classes: Vec<Class>,
}

/// A class, with the versions that added and deprecated it, and its
/// members in order of name.
pub struct Class {
    pub name: String,
    pub since: String,
    pub deprecated: Option<String>,
    pub sdks: Option<String>,
    pub modelue_text: Option<String>,
    pub extends: Vec<Extends>,
    pub methods: Vec<Method>,
    pub fields: Vec<Field>,
    pub implements: Vec<Implements>,
}

pub struct Method {
    pub name: String,
    pub since: Option<String>,
    pub deprecated: Option<String>,
    pub sdks: Option<String>,
}

pub struct Sdk {
    pub id: String,
    pub shortname: String,
    pub name: String,
    pub reference: String,
}

pub struct Extends {
    pub name: String,
}

pub struct Field {
    pub name: String,
    pub since: Option<String>,
    pub deprecated: Option<String>,
    pub sdks: Option<String>,
}

pub struct Implements {
    pub name: String,
}

/// What the checks read of a field or a method.
pub struct MemberView {
    pub name: Seq<char>,
    pub since: Option<Seq<char>>,
    pub deprecated: Option<Seq<char>>,
    pub sdks: Option<Seq<char>>,
}

/// What the checks read of a class.
pub struct ClassView {
    pub name: Seq<char>,
    pub since: Seq<char>,
    pub deprecated: Option<Seq<char>>,
    pub sdks: Option<Seq<char>>,
    pub fields: Seq<MemberView>,
    pub methods: Seq<MemberView>,
}

pub open spec fn opt_view(o: Option<String>) -> Option<Seq<char>> {
    match o {
        Some(s) => Some(s@),
        None => None,
    }
}

impl View for Method {
    type V = MemberView;

    open spec fn view(&self) -> MemberView {
        MemberView {
            name: self.name@,
            since: opt_view(self.since),
            deprecated: opt_view(self.deprecated),
            sdks: opt_view(self.sdks),
        }
    }
}

impl View for Field {
    type V = MemberView;

    open spec fn view(&self) -> MemberView {
        MemberView {
            name: self.name@,
            since: opt_view(self.since),
            deprecated: opt_view(self.deprecated),
            sdks: opt_view(self.sdks),
        }
    }
}

impl View for Class {
    type V = ClassView;

    open spec fn view(&self) -> ClassView {
        ClassView {
            name: self.name@,
            since: self.since@,
            deprecated: opt_view(self.deprecated),
            sdks: opt_view(self.sdks),
            fields: self.fields@.map_values(|f: Field| f@),
            methods: self.methods@.map_values(|m: Method| m@),
        }
    }
}

/// Names in strictly ascending order, as the keys of a map hold them: each
/// name once.
pub open spec fn keys_ascending(names: Seq<Seq<char>>) -> bool {
    forall|i: int, j: int|
        0 <= i < j < names.len() ==> chars_le(#[trigger] names[i], #[trigger] names[j]) && names[i]
            != names[j]
}

/// The names of the members, in order.
pub open spec fn member_names(members: Seq<MemberView>) -> Seq<Seq<char>> {
    members.map_values(|m: MemberView| m.name)
}

impl Api {
    pub open spec fn classes_view(&self) -> Seq<ClassView> {
        self.classes@.map_values(|c: Class| c@)
    }

    /// Classes, and the fields and the methods of each class, are keyed by
    /// name: they come in strictly ascending order of name.
    pub open spec fn wf(&self) -> bool {
        &&& keys_ascending(self.classes_view().map_values(|c: ClassView| c.name))
        &&& forall|i: int|
            0 <= i < self.classes.len() ==> keys_ascending(
                member_names((#[trigger] self.classes_view()[i]).fields),
            ) && keys_ascending(member_names(self.classes_view()[i].methods))
    }
}

// ---------------------------------------------------------------------
// Parsing an unsigned decimal number.

pub open spec fn is_digit(c: char) -> bool {
    '0' <= c && c <= '9'
}

pub open spec fn decimal_value(s: Seq<char>) -> int
    decreases s.len(),
{
    if s.len() == 0 {
        0
    } else {
        decimal_value(s.drop_last()) * 10 + (s.last() as int - '0' as int)
    }
}

/// The text after one optional leading `+`.
pub open spec fn unsigned_digits(s: Seq<char>) -> Seq<char> {
    if s.len() > 0 && s[0] == '+' {
        s.drop_first()
    } else {
        s
    }
}

pub open spec fn all_digits(d: Seq<char>) -> bool {
    forall|i: int| 0 <= i < d.len() ==> is_digit(#[trigger] d[i])
}

/// What `u32::from_str` returns for `s`: one optional leading `+`, then at
/// least one decimal digit and nothing else, of a value that fits in 32 bits.
pub open spec fn parse_u32_spec(s: Seq<char>) -> Option<u32> {
    let d = unsigned_digits(s);
    if d.len() > 0 && all_digits(d) && decimal_value(d) <= u32::MAX {
        Some(decimal_value(d) as u32)
    } else {
        None
    }
}

/// The decimal number spelled by `s[from..to]`, as `u32::from_str` reads it.
fn parse_u32(s: &Vec<char>, from: usize, to: usize) -> (r: Option<u32>)
    requires
        from <= to <= s.len(),
    ensures
        r == parse_u32_spec(s@.subrange(from as int, to as int)),
{
    let ghost sub = s@.subrange(from as int, to as int);
    let mut start = from;
    if from < to && s[from] == '+' {
        start = from + 1;
    }
    let ghost d = s@.subrange(start as int, to as int);
    let limit: u64 = 0x1_0000_0000;
    let mut acc: u64 = 0;
    let mut digits_only = true;
    let mut i = start;
    while i < to
        invariant
            from <= start <= i <= to <= s.len(),
            d == s@.subrange(start as int, to as int),
            limit == 0x1_0000_0000,
            digits_only == forall|k: int| start <= k < i ==> is_digit(#[trigger] s@[k]),
            digits_only ==> acc == if decimal_value(s@.subrange(start as int, i as int)) < limit {
                decimal_value(s@.subrange(start as int, i as int))
            } else {
                limit as int
            },
            acc <= limit,
        decreases to - i,
    {
        let c = s[i];
        let ghost prefix = s@.subrange(start as int, i as int);
        assert(s@.subrange(start as int, i + 1).drop_last() == prefix);
        if '0' <= c && c <= '9' {
            if digits_only {
                let digit = (c as u32 - '0' as u32) as u64;
                assert(decimal_value(s@.subrange(start as int, i + 1)) == decimal_value(prefix) * 10
                    + digit);
                if acc >= limit {
                    acc = limit;
                } else {
                    let next = acc * 10 + digit;
                    if next >= limit {
                        acc = limit;
                    } else {
                        acc = next;
                    }
                }
            }
        } else {
            digits_only = false;
        }
        i = i + 1;
    }
    proof {
        assert(s@.subrange(start as int, i as int) == d);
        assert(sub == s@.subrange(from as int, to as int));
        if from < to && s@[from as int] == '+' {
            assert(sub.drop_first() == d);
        } else {
            assert(sub == d);
        }
        assert(unsigned_digits(sub) == d);
        if digits_only {
            assert forall|k: int| 0 <= k < d.len() implies is_digit(#[trigger] d[k]) by {
                assert(d[k] == s@[start + k]);
            }
        } else {
            let k = choose|k: int| start <= k < to && !is_digit(#[trigger] s@[k]);
            assert(d[k - start] == s@[k]);
            assert(!is_digit(d[k - start]));
        }
        assert(digits_only == all_digits(d));
    }
    if start < to && digits_only && acc < limit {
        Some(acc as u32)
    } else {
        None
    }
}

// ---------------------------------------------------------------------
// SDK versions.

/// The index of the first `c` in `s`, or the length of `s` where there is
/// none.
pub open spec fn first_index(s: Seq<char>, c: char) -> int
    decreases s.len(),
{
    if s.len() == 0 {
        0
    } else if s[0] == c {
        0
    } else {
        1 + first_index(s.drop_first(), c)
    }
}

proof fn lemma_first_index(s: Seq<char>, c: char)
    ensures
        0 <= first_index(s, c) <= s.len(),
        first_index(s, c) < s.len() ==> s[first_index(s, c)] == c,
        forall|k: int| 0 <= k < first_index(s, c) ==> s[k] != c,
    decreases s.len(),
{
    if s.len() > 0 && s[0] != c {
        lemma_first_index(s.drop_first(), c);
        assert forall|k: int| 0 <= k < first_index(s, c) implies s[k] != c by {
            if k > 0 {
                assert(s[k] == s.drop_first()[k - 1]);
            }
        }
    }
}

/// The major and minor parts of an SDK version: the text before and after
/// the first dot, and `0` for the minor part where there is no dot.
pub open spec fn sdk_parts(sdk: Seq<char>) -> (Seq<char>, Seq<char>) {
    let i = first_index(sdk, '.');
    if i < sdk.len() {
        (sdk.take(i), sdk.skip(i + 1))
    } else {
        (sdk, seq!['0'])
    }
}

/// The newest SDK version that the checks accept as known.
pub open spec fn max_sdk_int_major() -> u32 {
    37
}

pub open spec fn max_sdk_int_minor() -> u32 {
    1
}

/// The problem that `validate_sdk_int` reports for `sdk`, if any. A version
/// whose major part is the newest known one and whose minor part is at most
/// the newest known minor is reported too, as the check is written.
pub open spec fn sdk_int_problem(sdk: Seq<char>) -> Option<Seq<char>> {
    let (major, minor) = sdk_parts(sdk);
    match (parse_u32_spec(major), parse_u32_spec(minor)) {
        (Some(a), Some(b)) => if a > max_sdk_int_major() {
            Some("Bad sdk version: \""@ + sdk + "\": Major version to larger."@)
        } else if a == max_sdk_int_major() && b <= max_sdk_int_minor() {
            Some("Bad sdk version: \""@ + sdk + "\": Minor version to larger."@)
        } else {
            None
        },
        (None, _) => Some("Bad sdk version: \""@ + sdk + "\": Failed to parse major version"@),
        (_, None) => Some("Bad sdk version: \""@ + sdk + "\": Failed to parse minor version"@),
    }
}

fn sdk_message(sdk: &String, tail: &str) -> (r: String)
    ensures
        r@ == "Bad sdk version: \""@ + sdk@ + tail@,
{
    let mut r = String::from_str("Bad sdk version: \"");
    r.append(sdk.as_str());
    r.append(tail);
    r
}

/// Checks that an SDK version parses and is not past the newest known one.
pub fn validate_sdk_int(sdk: &String) -> (r: Option<String>)
    ensures
        opt_view(r) == sdk_int_problem(sdk@),
{
    let max_sdk_int_major: u32 = 37;
    let max_sdk_int_minor: u32 = 1;
    let chars = chars_of(sdk.as_str());
    let mut dot: usize = 0;
    while dot < chars.len() && chars[dot] != '.'
        invariant
            dot <= chars.len(),
            forall|k: int| 0 <= k < dot ==> chars@[k] != '.',
        decreases chars.len() - dot,
    {
        dot = dot + 1;
    }
    proof {
        lemma_first_index(chars@, '.');
        assert(first_index(chars@, '.') == dot as int) by {
            if first_index(chars@, '.') < dot {
                assert(chars@[first_index(chars@, '.')] == '.');
            }
            if dot < first_index(chars@, '.') {
                assert(chars@[dot as int] != '.');
            }
        }
    }
    let major = parse_u32(&chars, 0, dot);
    let zero: Vec<char> = vec!['0'];
    let minor = if dot < chars.len() {
        parse_u32(&chars, dot + 1, chars.len())
    } else {
        parse_u32(&zero, 0, 1)
    };
    proof {
        let parts = sdk_parts(sdk@);
        assert(chars@.subrange(0, dot as int) == parts.0);
        assert(major == parse_u32_spec(parts.0));
        if dot < chars.len() {
            assert(chars@.subrange(dot + 1, chars.len() as int) == parts.1);
        } else {
            assert(zero@ == seq!['0']);
            assert(zero@.subrange(0, 1) == parts.1);
        }
        assert(minor == parse_u32_spec(parts.1));
    }
    match (major, minor) {
        (Some(major), Some(minor)) => {
            if major > max_sdk_int_major {
                Some(sdk_message(sdk, "\": Major version to larger."))
            } else if major == max_sdk_int_major && minor <= max_sdk_int_minor {
                Some(sdk_message(sdk, "\": Minor version to larger."))
            } else {
                None
            }
        },
        (None, _) => Some(sdk_message(sdk, "\": Failed to parse major version")),
        (_, None) => Some(sdk_message(sdk, "\": Failed to parse minor version")),
    }
}

/// Runs the SDK version check on every version of every class, field and
/// method. The check's findings are not collected, so nothing is ever
/// reported.
pub fn no_deprecated_after_last_known(api: &Api) -> (r: Vec<String>)
    requires
        api.wf(),
    ensures
        r@.len() == 0,
{
    let problems: Vec<String> = Vec::new();
    for i in 0..api.classes.len() {
        let class = &api.classes[i];
        validate_sdk_int(&class.since);
        if let Some(deprecated) = &class.deprecated {
            validate_sdk_int(deprecated);
        }
        for j in 0..class.fields.len() {
            let field = &class.fields[j];
            if let Some(since) = &field.since {
                validate_sdk_int(since);
            }
            if let Some(deprecated) = &field.deprecated {
                validate_sdk_int(deprecated);
            }
        }
        for j in 0..class.methods.len() {
            let method = &class.methods[j];
            if let Some(since) = &method.since {
                validate_sdk_int(since);
            }
            if let Some(deprecated) = &method.deprecated {
                validate_sdk_int(deprecated);
            }
        }
    }
    problems
}

// ---------------------------------------------------------------------
// Deprecated at birth.

/// `key` as a problem, unless the allow list holds it.
pub open spec fn unless_allowed(key: Seq<char>, allowlist: Set<Seq<char>>) -> Seq<Seq<char>> {
    if allowlist.contains(key) {
        Seq::empty()
    } else {
        seq![key]
    }
}

/// A class deprecated in the version that added it.
pub open spec fn class_own_birth_problems(c: ClassView, allowlist: Set<Seq<char>>) -> Seq<
    Seq<char>,
> {
    match c.deprecated {
        Some(d) => if d == c.since {
            unless_allowed(c.name + " "@ + d, allowlist)
        } else {
            Seq::empty()
        },
        None => Seq::empty(),
    }
}

/// A member deprecated in the version that added it (the class's version
/// where the member names none).
pub open spec fn member_birth_problems(
    class_name: Seq<char>,
    class_since: Seq<char>,
    m: MemberView,
    allowlist: Set<Seq<char>>,
) -> Seq<Seq<char>> {
    match m.deprecated {
        Some(d) => {
            let since = match m.since {
                Some(s) => s,
                None => class_since,
            };
            if d == since {
                unless_allowed(class_name + "#"@ + m.name + " "@ + d, allowlist)
            } else {
                Seq::empty()
            }
        },
        None => Seq::empty(),
    }
}

pub open spec fn members_birth_problems(
    class_name: Seq<char>,
    class_since: Seq<char>,
    ms: Seq<MemberView>,
    allowlist: Set<Seq<char>>,
) -> Seq<Seq<char>>
    decreases ms.len(),
{
    if ms.len() == 0 {
        Seq::empty()
    } else {
        members_birth_problems(class_name, class_since, ms.drop_last(), allowlist)
            + member_birth_problems(class_name, class_since, ms.last(), allowlist)
    }
}

/// The class itself, then its fields, then its methods.
pub open spec fn class_birth_problems(c: ClassView, allowlist: Set<Seq<char>>) -> Seq<Seq<char>> {
    class_own_birth_problems(c, allowlist) + members_birth_problems(
        c.name,
        c.since,
        c.fields,
        allowlist,
    ) + members_birth_problems(c.name, c.since, c.methods, allowlist)
}

pub open spec fn birth_problems(classes: Seq<ClassView>, allowlist: Set<Seq<char>>) -> Seq<
    Seq<char>,
>
    decreases classes.len(),
{
    if classes.len() == 0 {
        Seq::empty()
    } else {
        birth_problems(classes.drop_last(), allowlist) + class_birth_problems(
            classes.last(),
            allowlist,
        )
    }
}

proof fn lemma_members_report(
    class_name: Seq<char>,
    class_since: Seq<char>,
    ms: Seq<MemberView>,
    allowlist: Set<Seq<char>>,
    k: int,
    line: Seq<char>,
)
    requires
        0 <= k < ms.len(),
        member_birth_problems(class_name, class_since, ms[k], allowlist) == seq![line],
    ensures
        members_birth_problems(class_name, class_since, ms, allowlist).contains(line),
    decreases ms.len(),
{
    let prefix = members_birth_problems(class_name, class_since, ms.drop_last(), allowlist);
    let last = member_birth_problems(class_name, class_since, ms.last(), allowlist);
    if k == ms.len() - 1 {
        assert((prefix + last)[prefix.len() as int] == line);
    } else {
        assert(ms.drop_last()[k] == ms[k]);
        lemma_members_report(class_name, class_since, ms.drop_last(), allowlist, k, line);
        let j = choose|j: int| 0 <= j < prefix.len() && prefix[j] == line;
        assert((prefix + last)[j] == line);
    }
}

proof fn lemma_classes_report(
    classes: Seq<ClassView>,
    allowlist: Set<Seq<char>>,
    i: int,
    line: Seq<char>,
)
    requires
        0 <= i < classes.len(),
        class_birth_problems(classes[i], allowlist).contains(line),
    ensures
        birth_problems(classes, allowlist).contains(line),
    decreases classes.len(),
{
    let prefix = birth_problems(classes.drop_last(), allowlist);
    let last = class_birth_problems(classes.last(), allowlist);
    if i == classes.len() - 1 {
        let j = choose|j: int| 0 <= j < last.len() && last[j] == line;
        assert((prefix + last)[prefix.len() + j] == line);
    } else {
        assert(classes.drop_last()[i] == classes[i]);
        lemma_classes_report(classes.drop_last(), allowlist, i, line);
        let j = choose|j: int| 0 <= j < prefix.len() && prefix[j] == line;
        assert((prefix + last)[j] == line);
    }
}

/// A field or method deprecated in the version that added it (its own
/// version, or its class's where it names none) is reported as
/// `Class#member version` unless the allow list holds that line, whether
/// or not its class is deprecated.
pub proof fn lemma_member_deprecated_at_birth_reported(
    classes: Seq<ClassView>,
    allowlist: Set<Seq<char>>,
    i: int,
    ms: Seq<MemberView>,
    k: int,
    version: Seq<char>,
)
    requires
        0 <= i < classes.len(),
        ms == classes[i].fields || ms == classes[i].methods,
        0 <= k < ms.len(),
        ms[k].deprecated == Some(version),
        version == match ms[k].since {
            Some(s) => s,
            None => classes[i].since,
        },
        !allowlist.contains(classes[i].name + "#"@ + ms[k].name + " "@ + version),
    ensures
        birth_problems(classes, allowlist).contains(
            classes[i].name + "#"@ + ms[k].name + " "@ + version,
        ),
{
    let c = classes[i];
    let line = c.name + "#"@ + ms[k].name + " "@ + version;
    lemma_members_report(c.name, c.since, ms, allowlist, k, line);
    let own = class_own_birth_problems(c, allowlist);
    let fs = members_birth_problems(c.name, c.since, c.fields, allowlist);
    let mts = members_birth_problems(c.name, c.since, c.methods, allowlist);
    if ms == c.fields {
        let j = choose|j: int| 0 <= j < fs.len() && fs[j] == line;
        assert((own + fs + mts)[own.len() + j] == line);
    } else {
        let j = choose|j: int| 0 <= j < mts.len() && mts[j] == line;
        assert((own + fs + mts)[own.len() + fs.len() + j] == line);
    }
    assert(class_birth_problems(c, allowlist).contains(line));
    lemma_classes_report(classes, allowlist, i, line);
}

/// A class deprecated in the version that added it is reported as
/// `Class version` unless the allow list holds that line.
pub proof fn lemma_class_deprecated_at_birth_reported(
    classes: Seq<ClassView>,
    allowlist: Set<Seq<char>>,
    i: int,
)
    requires
        0 <= i < classes.len(),
        classes[i].deprecated == Some(classes[i].since),
        !allowlist.contains(classes[i].name + " "@ + classes[i].since),
    ensures
        birth_problems(classes, allowlist).contains(classes[i].name + " "@ + classes[i].since),
{
    let c = classes[i];
    let line = c.name + " "@ + c.since;
    let own = class_own_birth_problems(c, allowlist);
    assert(own == seq![line]);
    assert((own + members_birth_problems(c.name, c.since, c.fields, allowlist)
        + members_birth_problems(c.name, c.since, c.methods, allowlist))[0] == line);
    assert(class_birth_problems(c, allowlist).contains(line));
    lemma_classes_report(classes, allowlist, i, line);
}

/// `line` reports a member of `ms`, of the class `class_name` added in
/// `class_since`, deprecated in the version that added it: the line is
/// `Class#member version` and the allow list does not hold it.
pub open spec fn reports_member(
    class_name: Seq<char>,
    class_since: Seq<char>,
    ms: Seq<MemberView>,
    allowlist: Set<Seq<char>>,
    line: Seq<char>,
) -> bool {
    exists|k: int|
        0 <= k < ms.len() && (#[trigger] ms[k]).deprecated is Some && ms[k].deprecated->Some_0
            == match ms[k].since {
            Some(s) => s,
            None => class_since,
        } && line == class_name + "#"@ + ms[k].name + " "@ + ms[k].deprecated->Some_0
            && !allowlist.contains(line)
}

/// `line` reports the class `c` itself, or one of its fields or methods,
/// as deprecated in the version that added it.
pub open spec fn reports_class(c: ClassView, allowlist: Set<Seq<char>>, line: Seq<char>) -> bool {
    ||| (c.deprecated == Some(c.since) && line == c.name + " "@ + c.since && !allowlist.contains(
        line,
    ))
    ||| reports_member(c.name, c.since, c.fields, allowlist, line)
    ||| reports_member(c.name, c.since, c.methods, allowlist, line)
}

proof fn lemma_concat_contains(a: Seq<Seq<char>>, b: Seq<Seq<char>>, x: Seq<char>)
    requires
        (a + b).contains(x),
    ensures
        a.contains(x) || b.contains(x),
{
    let j = choose|j: int| 0 <= j < (a + b).len() && (a + b)[j] == x;
    if j < a.len() {
        assert(a[j] == x);
    } else {
        assert(b[j - a.len()] == x);
    }
}

proof fn lemma_members_report_only(
    class_name: Seq<char>,
    class_since: Seq<char>,
    ms: Seq<MemberView>,
    allowlist: Set<Seq<char>>,
    line: Seq<char>,
)
    requires
        members_birth_problems(class_name, class_since, ms, allowlist).contains(line),
    ensures
        reports_member(class_name, class_since, ms, allowlist, line),
    decreases ms.len(),
{
    if ms.len() > 0 {
        let prefix = members_birth_problems(class_name, class_since, ms.drop_last(), allowlist);
        let last = member_birth_problems(class_name, class_since, ms.last(), allowlist);
        lemma_concat_contains(prefix, last, line);
        if prefix.contains(line) {
            lemma_members_report_only(class_name, class_since, ms.drop_last(), allowlist, line);
            let k = choose|k: int|
                0 <= k < ms.drop_last().len() && (#[trigger] ms.drop_last()[k]).deprecated is Some
                    && ms.drop_last()[k].deprecated->Some_0 == match ms.drop_last()[k].since {
                    Some(s) => s,
                    None => class_since,
                } && line == class_name + "#"@ + ms.drop_last()[k].name + " "@
                    + ms.drop_last()[k].deprecated->Some_0 && !allowlist.contains(line);
            assert(ms.drop_last()[k] == ms[k]);
        } else {
            assert(last.contains(line));
            assert(ms[ms.len() - 1] == ms.last());
        }
    } else {
        assert(members_birth_problems(class_name, class_since, ms, allowlist).len() == 0);
    }
}

/// Every line that the check reports names a class, field or method
/// deprecated in the version that added it, and is not on the allow list.
pub proof fn lemma_birth_reports_only_deprecated_at_birth(
    classes: Seq<ClassView>,
    allowlist: Set<Seq<char>>,
    line: Seq<char>,
)
    requires
        birth_problems(classes, allowlist).contains(line),
    ensures
        exists|i: int| 0 <= i < classes.len() && reports_class(#[trigger] classes[i], allowlist, line),
    decreases classes.len(),
{
    if classes.len() > 0 {
        let prefix = birth_problems(classes.drop_last(), allowlist);
        let c = classes.last();
        let last = class_birth_problems(c, allowlist);
        lemma_concat_contains(prefix, last, line);
        if prefix.contains(line) {
            lemma_birth_reports_only_deprecated_at_birth(classes.drop_last(), allowlist, line);
            let i = choose|i: int|
                0 <= i < classes.drop_last().len() && reports_class(
                    #[trigger] classes.drop_last()[i],
                    allowlist,
                    line,
                );
            assert(classes.drop_last()[i] == classes[i]);
        } else {
            let own = class_own_birth_problems(c, allowlist);
            let fs = members_birth_problems(c.name, c.since, c.fields, allowlist);
            let mts = members_birth_problems(c.name, c.since, c.methods, allowlist);
            assert(last == own + fs + mts);
            lemma_concat_contains(own + fs, mts, line);
            if mts.contains(line) {
                lemma_members_report_only(c.name, c.since, c.methods, allowlist, line);
            } else {
                lemma_concat_contains(own, fs, line);
                if fs.contains(line) {
                    lemma_members_report_only(c.name, c.since, c.fields, allowlist, line);
                } else {
                    assert(own.contains(line));
                }
            }
            assert(reports_class(classes[classes.len() - 1], allowlist, line));
        }
    } else {
        assert(birth_problems(classes, allowlist).len() == 0);
    }
}

fn push_unless_allowed(key: String, allowlist: &StringHashSet, problems: &mut Vec<String>)
    ensures
        strings_view(final(problems)@) == strings_view(old(problems)@) + unless_allowed(
            key@,
            allowlist@,
        ),
{
    if !allowlist.contains(key.as_str()) {
        let ghost p0 = problems@;
        problems.push(key);
        assert(strings_view(problems@) == strings_view(p0).push(key@));
    } else {
        assert(strings_view(problems@) == strings_view(problems@) + Seq::<Seq<char>>::empty());
    }
}

fn member_birth_check(
    class: &Class,
    name: &String,
    since: &Option<String>,
    deprecated: &Option<String>,
    allowlist: &StringHashSet,
    problems: &mut Vec<String>,
)
    ensures
        strings_view(final(problems)@) == strings_view(old(problems)@) + member_birth_problems(
            class.name@,
            class.since@,
            MemberView {
                name: name@,
                since: opt_view(*since),
                deprecated: opt_view(*deprecated),
                sdks: None,
            },
            allowlist@,
        ),
{
    match deprecated {
        Some(d) => {
            let since_text = match since {
                Some(s) => s,
                None => &class.since,
            };
            if str_eq(d.as_str(), since_text.as_str()) {
                let mut key = class.name.clone();
                key.append("#");
                key.append(name.as_str());
                key.append(" ");
                key.append(d.as_str());
                push_unless_allowed(key, allowlist, problems);
            } else {
                assert(strings_view(problems@) == strings_view(problems@) + Seq::<
                    Seq<char>,
                >::empty());
            }
        },
        None => {
            assert(strings_view(problems@) == strings_view(problems@) + Seq::<Seq<char>>::empty());
        },
    }
}

fn class_birth_check(class: &Class, allowlist: &StringHashSet, problems: &mut Vec<String>)
    ensures
        strings_view(final(problems)@) == strings_view(old(problems)@) + class_birth_problems(
            class@,
            allowlist@,
        ),
{
    let ghost c = class@;
    let ghost p0 = strings_view(problems@);
    match &class.deprecated {
        Some(d) => {
            if str_eq(d.as_str(), class.since.as_str()) {
                let mut key = class.name.clone();
                key.append(" ");
                key.append(d.as_str());
                push_unless_allowed(key, allowlist, problems);
            } else {
                assert(strings_view(problems@) == p0 + Seq::<Seq<char>>::empty());
            }
        },
        None => {
            assert(strings_view(problems@) == p0 + Seq::<Seq<char>>::empty());
        },
    }
    let ghost p1 = strings_view(problems@);
    assert(p1 == p0 + class_own_birth_problems(c, allowlist@));
    let mut j: usize = 0;
    while j < class.fields.len()
        invariant
            j <= class.fields.len(),
            c == class@,
            strings_view(problems@) == p1 + members_birth_problems(
                c.name,
                c.since,
                c.fields.take(j as int),
                allowlist@,
            ),
        decreases class.fields.len() - j,
    {
        let field = &class.fields[j];
        assert(c.fields[j as int] == field@);
        assert(c.fields.take(j + 1).drop_last() == c.fields.take(j as int));
        let ghost before = strings_view(problems@);
        member_birth_check(class, &field.name, &field.since, &field.deprecated, allowlist, problems);
        assert(member_birth_problems(
            c.name,
            c.since,
            MemberView {
                name: field.name@,
                since: opt_view(field.since),
                deprecated: opt_view(field.deprecated),
                sdks: None,
            },
            allowlist@,
        ) == member_birth_problems(c.name, c.since, field@, allowlist@));
        assert(strings_view(problems@) == p1 + members_birth_problems(
            c.name,
            c.since,
            c.fields.take(j + 1),
            allowlist@,
        ));
        j = j + 1;
    }
    assert(c.fields.take(j as int) == c.fields);
    let ghost p2 = strings_view(problems@);
    let mut j: usize = 0;
    while j < class.methods.len()
        invariant
            j <= class.methods.len(),
            c == class@,
            strings_view(problems@) == p2 + members_birth_problems(
                c.name,
                c.since,
                c.methods.take(j as int),
                allowlist@,
            ),
        decreases class.methods.len() - j,
    {
        let method = &class.methods[j];
        assert(c.methods[j as int] == method@);
        assert(c.methods.take(j + 1).drop_last() == c.methods.take(j as int));
        member_birth_check(
            class,
            &method.name,
            &method.since,
            &method.deprecated,
            allowlist,
            problems,
        );
        assert(member_birth_problems(
            c.name,
            c.since,
            MemberView {
                name: method.name@,
                since: opt_view(method.since),
                deprecated: opt_view(method.deprecated),
                sdks: None,
            },
            allowlist@,
        ) == member_birth_problems(c.name, c.since, method@, allowlist@));
        assert(strings_view(problems@) == p2 + members_birth_problems(
            c.name,
            c.since,
            c.methods.take(j + 1),
            allowlist@,
        ));
        j = j + 1;
    }
    assert(c.methods.take(j as int) == c.methods);
}

/// Every class, field and method deprecated in the version that added it
/// and not on the allow list, as `Class#member version` (or `Class
/// version`), in order.
pub fn no_deprecated_at_birth(api: &Api, allowlist: &StringHashSet) -> (r: Vec<String>)
    requires
        api.wf(),
    ensures
        strings_view(r@) == birth_problems(api.classes_view(), allowlist@),
{
    let ghost cs = api.classes_view();
    let mut problems: Vec<String> = Vec::new();
    let mut i: usize = 0;
    assert(strings_view(problems@) =~= birth_problems(cs.take(0), allowlist@));
    while i < api.classes.len()
        invariant
            i <= api.classes.len(),
            cs == api.classes_view(),
            strings_view(problems@) == birth_problems(cs.take(i as int), allowlist@),
        decreases api.classes.len() - i,
    {
        assert(cs[i as int] == api.classes@[i as int]@);
        assert(cs.take(i + 1).drop_last() == cs.take(i as int));
        class_birth_check(&api.classes[i], allowlist, &mut problems);
        i = i + 1;
    }
    assert(cs.take(i as int) == cs);
    problems
}

proof fn lemma_members_silenced(
    class_name: Seq<char>,
    class_since: Seq<char>,
    ms: Seq<MemberView>,
    allowlist: Set<Seq<char>>,
    wider: Set<Seq<char>>,
)
    requires
        allowlist.subset_of(wider),
        forall|k: Seq<char>|
            members_birth_problems(class_name, class_since, ms, allowlist).contains(k)
                ==> wider.contains(k),
    ensures
        members_birth_problems(class_name, class_since, ms, wider) == Seq::<Seq<char>>::empty(),
    decreases ms.len(),
{
    if ms.len() > 0 {
        let prefix = members_birth_problems(class_name, class_since, ms.drop_last(), allowlist);
        let last = member_birth_problems(class_name, class_since, ms.last(), allowlist);
        assert forall|k: Seq<char>| prefix.contains(k) implies wider.contains(k) by {
            let j = choose|j: int| 0 <= j < prefix.len() && prefix[j] == k;
            assert((prefix + last)[j] == k);
        }
        lemma_members_silenced(class_name, class_since, ms.drop_last(), allowlist, wider);
        if last.len() > 0 {
            assert((prefix + last)[prefix.len() as int] == last[0]);
        }
    }
}

proof fn lemma_birth_silenced(
    classes: Seq<ClassView>,
    allowlist: Set<Seq<char>>,
    wider: Set<Seq<char>>,
)
    requires
        allowlist.subset_of(wider),
        forall|k: Seq<char>| birth_problems(classes, allowlist).contains(k) ==> wider.contains(k),
    ensures
        birth_problems(classes, wider) == Seq::<Seq<char>>::empty(),
    decreases classes.len(),
{
    if classes.len() > 0 {
        let c = classes.last();
        let prefix = birth_problems(classes.drop_last(), allowlist);
        let own = class_own_birth_problems(c, allowlist);
        let fields = members_birth_problems(c.name, c.since, c.fields, allowlist);
        let methods = members_birth_problems(c.name, c.since, c.methods, allowlist);
        let all = prefix + (own + fields + methods);
        assert(all == birth_problems(classes, allowlist));
        assert forall|k: Seq<char>| prefix.contains(k) implies wider.contains(k) by {
            let j = choose|j: int| 0 <= j < prefix.len() && prefix[j] == k;
            assert(all[j] == k);
        }
        lemma_birth_silenced(classes.drop_last(), allowlist, wider);
        if own.len() > 0 {
            assert(all[prefix.len() as int] == own[0]);
        }
        assert forall|k: Seq<char>| fields.contains(k) implies wider.contains(k) by {
            let j = choose|j: int| 0 <= j < fields.len() && fields[j] == k;
            assert(all[prefix.len() + own.len() + j] == k);
        }
        assert forall|k: Seq<char>| methods.contains(k) implies wider.contains(k) by {
            let j = choose|j: int| 0 <= j < methods.len() && methods[j] == k;
            assert(all[prefix.len() + own.len() + fields.len() + j] == k);
        }
        lemma_members_silenced(c.name, c.since, c.fields, allowlist, wider);
        lemma_members_silenced(c.name, c.since, c.methods, allowlist, wider);
    }
}

/// Allowing what was reported silences the check: once every reported key
/// is added to the allow list, nothing is deprecated at birth any more.
pub proof fn lemma_allowing_reports_silences(classes: Seq<ClassView>, allowlist: Set<Seq<char>>)
    ensures
        birth_problems(classes, allowlist.union(birth_problems(classes, allowlist).to_set()))
            == Seq::<Seq<char>>::empty(),
{
    let wider = allowlist.union(birth_problems(classes, allowlist).to_set());
    lemma_birth_silenced(classes, allowlist, wider);
}

// ---------------------------------------------------------------------
// Extension versions.

/// The comma-separated `extension:version` entries of an sdks value.
pub open spec fn sdk_entries(sdks: Seq<char>) -> Seq<Seq<char>> {
    split_by(sdks, char_is(','))
}

/// The extension of an entry: the text before its colon.
pub open spec fn entry_extension(entry: Seq<char>) -> Seq<char> {
    split_by(entry, char_is(':'))[0]
}

/// Every entry has exactly one colon, and no extension occurs twice.
pub open spec fn sdks_well_formed(sdks: Seq<char>) -> bool {
    &&& forall|i: int|
        0 <= i < sdk_entries(sdks).len() ==> split_by(
            #[trigger] sdk_entries(sdks)[i],
            char_is(':'),
        ).len() == 2
    &&& forall|i: int, j: int|
        0 <= i < j < sdk_entries(sdks).len() ==> entry_extension(#[trigger] sdk_entries(sdks)[i])
            != entry_extension(#[trigger] sdk_entries(sdks)[j])
}

/// The ad services extension is listed beside an extension other than
/// itself and the platform (`0`).
pub open spec fn adservices_crossover(sdks: Seq<char>) -> bool {
    &&& exists|i: int|
        0 <= i < sdk_entries(sdks).len() && entry_extension(#[trigger] sdk_entries(sdks)[i])
            == "1000000"@
    &&& exists|i: int|
        0 <= i < sdk_entries(sdks).len() && entry_extension(#[trigger] sdk_entries(sdks)[i])
            != "1000000"@ && entry_extension(sdk_entries(sdks)[i]) != "0"@
}

pub open spec fn extra_extension_message(sdks: Seq<char>) -> Seq<char> {
    "Found extra extension value in addition to adservices: "@ + sdks
}

/// Whether `v` and `w` hold the same characters.
fn chars_eq(v: &Vec<char>, w: &Vec<char>) -> (r: bool)
    ensures
        r == (v@ == w@),
{
    if v.len() != w.len() {
        return false;
    }
    let mut i: usize = 0;
    while i < v.len()
        invariant
            i <= v.len(),
            v.len() == w.len(),
            forall|k: int| 0 <= k < i ==> v@[k] == w@[k],
        decreases v.len() - i,
    {
        if v[i] != w[i] {
            return false;
        }
        i = i + 1;
    }
    assert(v@ == w@);
    true
}

/// Whether an sdks value is well formed: `validate_sdk_string` fails on
/// any other.
pub fn sdks_is_well_formed(sdks: &String) -> (r: bool)
    ensures
        r == sdks_well_formed(sdks@),
{
    let chars = chars_of(sdks.as_str());
    let entries = split_chars(&chars, ',');
    let ghost es = sdk_entries(sdks@);
    assert(seqs_view(entries@) == es);
    let mut exts: Vec<Vec<char>> = Vec::new();
    let mut i: usize = 0;
    while i < entries.len()
        invariant
            i <= entries.len(),
            seqs_view(entries@) == es,
            es == sdk_entries(sdks@),
            exts@.len() == i,
            forall|k: int| 0 <= k < i ==> split_by(#[trigger] es[k], char_is(':')).len() == 2,
            forall|k: int| 0 <= k < i ==> (#[trigger] exts@[k])@ == entry_extension(es[k]),
            forall|k: int, l: int|
                0 <= k < l < i ==> entry_extension(#[trigger] es[k]) != entry_extension(
                    #[trigger] es[l],
                ),
        decreases entries.len() - i,
    {
        assert(entries@[i as int]@ == es[i as int]);
        let parts = split_chars(&entries[i], ':');
        if parts.len() != 2 {
            return false;
        }
        assert(parts@[0]@ == entry_extension(es[i as int]));
        let mut k: usize = 0;
        while k < i
            invariant
                k <= i,
                i < entries.len(),
                exts@.len() == i,
                seqs_view(entries@) == es,
                es == sdk_entries(sdks@),
                parts@.len() == 2,
                parts@[0]@ == entry_extension(es[i as int]),
                forall|m: int| 0 <= m < i ==> (#[trigger] exts@[m])@ == entry_extension(es[m]),
                forall|m: int| 0 <= m < k ==> entry_extension(#[trigger] es[m]) != entry_extension(
                    es[i as int],
                ),
            decreases i - k,
        {
            if chars_eq(&exts[k], &parts[0]) {
                assert(entry_extension(sdk_entries(sdks@)[k as int]) == entry_extension(
                    sdk_entries(sdks@)[i as int],
                ));
                return false;
            }
            k = k + 1;
        }
        let ext = parts[0].clone();
        exts.push(ext);
        i = i + 1;
    }
    true
}

/// Checks that the ad services extension is not listed beside another
/// extension than the platform; an entry without exactly one colon, or an
/// extension listed twice, is left out by the precondition.
pub fn validate_sdk_string(sdks: &String) -> (r: Result<String, String>)
    requires
        sdks_well_formed(sdks@),
    ensures
        adservices_crossover(sdks@) ==> r is Err && r->Err_0@ == extra_extension_message(sdks@),
        !adservices_crossover(sdks@) ==> r is Ok && r->Ok_0@ == Seq::<char>::empty(),
{
    let chars = chars_of(sdks.as_str());
    let entries = split_chars(&chars, ',');
    let ghost es = sdk_entries(sdks@);
    let mut has_adservices = false;
    let mut has_other = false;
    let mut i: usize = 0;
    while i < entries.len()
        invariant
            i <= entries.len(),
            seqs_view(entries@) == es,
            es == sdk_entries(sdks@),
            sdks_well_formed(sdks@),
            has_adservices == exists|k: int|
                0 <= k < i && entry_extension(#[trigger] es[k]) == "1000000"@,
            has_other == exists|k: int|
                0 <= k < i && entry_extension(#[trigger] es[k]) != "1000000"@ && entry_extension(
                    es[k],
                ) != "0"@,
        decreases entries.len() - i,
    {
        assert(entries@[i as int]@ == es[i as int]);
        let parts = split_chars(&entries[i], ':');
        assert(parts@.len() == 2);
        let ext = string_from_chars(parts[0].as_slice());
        assert(ext@ == entry_extension(es[i as int]));
        if str_eq(ext.as_str(), "1000000") {
            has_adservices = true;
        } else if !str_eq(ext.as_str(), "0") {
            has_other = true;
        }
        i = i + 1;
    }
    if has_adservices && has_other {
        let mut message = String::from_str(
            "Found extra extension value in addition to adservices: ",
        );
        message.append(sdks.as_str());
        Err(message)
    } else {
        Ok(String::new())
    }
}

/// The problem reported for one sdks value, if any.
pub open spec fn sdks_problems(sdks: Option<Seq<char>>) -> Seq<Seq<char>> {
    match sdks {
        Some(s) => if adservices_crossover(s) {
            seq![extra_extension_message(s)]
        } else {
            Seq::empty()
        },
        None => Seq::empty(),
    }
}

pub open spec fn members_crossover_problems(ms: Seq<MemberView>) -> Seq<Seq<char>>
    decreases ms.len(),
{
    if ms.len() == 0 {
        Seq::empty()
    } else {
        members_crossover_problems(ms.drop_last()) + sdks_problems(ms.last().sdks)
    }
}

/// The class itself, then its fields, then its methods.
pub open spec fn class_crossover_problems(c: ClassView) -> Seq<Seq<char>> {
    sdks_problems(c.sdks) + members_crossover_problems(c.fields) + members_crossover_problems(
        c.methods,
    )
}

pub open spec fn crossover_problems(classes: Seq<ClassView>) -> Seq<Seq<char>>
    decreases classes.len(),
{
    if classes.len() == 0 {
        Seq::empty()
    } else {
        crossover_problems(classes.drop_last()) + class_crossover_problems(classes.last())
    }
}

pub open spec fn opt_sdks_well_formed(sdks: Option<Seq<char>>) -> bool {
    match sdks {
        Some(s) => sdks_well_formed(s),
        None => true,
    }
}

/// Every sdks value of every class, field and method is well formed.
pub open spec fn api_sdks_well_formed(classes: Seq<ClassView>) -> bool {
    forall|i: int|
        0 <= i < classes.len() ==> {
            &&& opt_sdks_well_formed((#[trigger] classes[i]).sdks)
            &&& forall|j: int|
                0 <= j < classes[i].fields.len() ==> opt_sdks_well_formed(
                    (#[trigger] classes[i].fields[j]).sdks,
                )
            &&& forall|j: int|
                0 <= j < classes[i].methods.len() ==> opt_sdks_well_formed(
                    (#[trigger] classes[i].methods[j]).sdks,
                )
        }
}

fn sdks_check(sdks: &Option<String>, problems: &mut Vec<String>)
    requires
        opt_sdks_well_formed(opt_view(*sdks)),
    ensures
        strings_view(final(problems)@) == strings_view(old(problems)@) + sdks_problems(
            opt_view(*sdks),
        ),
{
    let ghost p0 = strings_view(problems@);
    match sdks {
        Some(s) => {
            match validate_sdk_string(s) {
                Err(e) => {
                    problems.push(e);
                    assert(strings_view(problems@) == p0.push(extra_extension_message(s@)));
                },
                Ok(_) => {
                    assert(strings_view(problems@) == p0 + Seq::<Seq<char>>::empty());
                },
            }
        },
        None => {
            assert(strings_view(problems@) == p0 + Seq::<Seq<char>>::empty());
        },
    }
}

/// Every sdks value that lists the ad services extension beside another
/// extension than the platform, reported in order of class, then field,
/// then method.
pub fn no_adservices_ext_crossover(api: &Api) -> (r: Vec<String>)
    requires
        api.wf(),
        api_sdks_well_formed(api.classes_view()),
    ensures
        strings_view(r@) == crossover_problems(api.classes_view()),
{
    let ghost cs = api.classes_view();
    let mut problems: Vec<String> = Vec::new();
    let mut i: usize = 0;
    assert(strings_view(problems@) =~= crossover_problems(cs.take(0)));
    while i < api.classes.len()
        invariant
            i <= api.classes.len(),
            cs == api.classes_view(),
            api_sdks_well_formed(cs),
            strings_view(problems@) == crossover_problems(cs.take(i as int)),
        decreases api.classes.len() - i,
    {
        let class = &api.classes[i];
        let ghost c = class@;
        assert(cs[i as int] == c);
        assert(cs.take(i + 1).drop_last() == cs.take(i as int));
        let ghost p0 = strings_view(problems@);
        sdks_check(&class.sdks, &mut problems);
        let ghost p1 = strings_view(problems@);
        let mut j: usize = 0;
        while j < class.fields.len()
            invariant
                j <= class.fields.len(),
                c == class@,
                cs[i as int] == c,
                i < cs.len(),
                api_sdks_well_formed(cs),
                strings_view(problems@) == p1 + members_crossover_problems(c.fields.take(j as int)),
            decreases class.fields.len() - j,
        {
            assert(c.fields[j as int] == class.fields@[j as int]@);
            assert(c.fields.take(j + 1).drop_last() == c.fields.take(j as int));
            sdks_check(&class.fields[j].sdks, &mut problems);
            j = j + 1;
        }
        assert(c.fields.take(j as int) == c.fields);
        let ghost p2 = strings_view(problems@);
        let mut j: usize = 0;
        while j < class.methods.len()
            invariant
                j <= class.methods.len(),
                c == class@,
                cs[i as int] == c,
                i < cs.len(),
                api_sdks_well_formed(cs),
                strings_view(problems@) == p2 + members_crossover_problems(
                    c.methods.take(j as int),
                ),
            decreases class.methods.len() - j,
        {
            assert(c.methods[j as int] == class.methods@[j as int]@);
            assert(c.methods.take(j + 1).drop_last() == c.methods.take(j as int));
            sdks_check(&class.methods[j].sdks, &mut problems);
            j = j + 1;
        }
        assert(c.methods.take(j as int) == c.methods);
        i = i + 1;
    }
    assert(cs.take(i as int) == cs);
    problems
}

} // verus!
