//! The build flags of every release configuration that SDK finalization
//! checks, keyed by release configuration, and the aliases of the release
//! configurations.

use vstd::prelude::*;
use vstd::hash_map::StringHashMap;
use crate::text::str_eq;

verus! {

/// The value of a build flag in a release configuration artifact.
pub enum ReleaseFlagValue {
    /// No value is set.
    Unset,
    StringValue(String),
    BoolValue(bool),
    /// Any other kind of value (unspecified or obsolete).
    Other,
}

/// One build flag of a release configuration artifact.
pub struct FlagArtifact {
    pub name: String,
    pub value: ReleaseFlagValue,
}

/// A release configuration: its name, its other names and its flags.
pub struct ReleaseConfigArtifact {
    pub name: String,
    pub other_names: Vec<String>,
    pub flags: Vec<FlagArtifact>,
}

/// The release configuration in use and all the others.
pub struct ReleaseConfigsArtifact {
    pub release_config: ReleaseConfigArtifact,
    pub other_release_configs: Vec<ReleaseConfigArtifact>,
}

pub enum ReleaseFlagValueView {
    Unset,
    StringValue(Seq<char>),
    BoolValue(bool),
    Other,
}

pub struct FlagArtifactView {
    pub name: Seq<char>,
    pub value: ReleaseFlagValueView,
}

pub struct ReleaseConfigArtifactView {
    pub name: Seq<char>,
    pub other_names: Seq<Seq<char>>,
    pub flags: Seq<FlagArtifactView>,
}

impl View for ReleaseFlagValue {
    type V = ReleaseFlagValueView;

    open spec fn view(&self) -> ReleaseFlagValueView {
        match self {
            ReleaseFlagValue::Unset => ReleaseFlagValueView::Unset,
            ReleaseFlagValue::StringValue(s) => ReleaseFlagValueView::StringValue(s@),
            ReleaseFlagValue::BoolValue(b) => ReleaseFlagValueView::BoolValue(*b),
            ReleaseFlagValue::Other => ReleaseFlagValueView::Other,
        }
    }
}

impl View for FlagArtifact {
    type V = FlagArtifactView;

    open spec fn view(&self) -> FlagArtifactView {
        FlagArtifactView { name: self.name@, value: self.value@ }
    }
}

impl View for ReleaseConfigArtifact {
    type V = ReleaseConfigArtifactView;

    open spec fn view(&self) -> ReleaseConfigArtifactView {
        ReleaseConfigArtifactView {
            name: self.name@,
            other_names: self.other_names@.map_values(|s: String| s@),
            flags: self.flags@.map_values(|f: FlagArtifact| f@),
        }
    }
}

impl ReleaseConfigsArtifact {
    /// The release configuration in use, then the others in order.
    pub open spec fn configs(&self) -> Seq<ReleaseConfigArtifactView> {
        seq![self.release_config@] + self.other_release_configs@.map_values(
            |c: ReleaseConfigArtifact| c@,
        )
    }
}

/// The build flags that SDK finalization looks at.
pub open spec fn flag_we_care_about(name: Seq<char>) -> bool {
    ||| name == "RELEASE_PLATFORM_SDK_VERSION"@
    ||| name == "RELEASE_PLATFORM_SDK_VERSION_FULL"@
    ||| name == "RELEASE_PLATFORM_VERSION"@
    ||| name == "RELEASE_PLATFORM_VERSION_CODENAME"@
    ||| name == "RELEASE_HIDDEN_API_EXPORTABLE_STUBS"@
}

/// The names of the build flags that SDK finalization looks at.
pub fn flags_we_care_about() -> (r: Vec<&'static str>)
    ensures
        r@.len() == 5,
        r@[0]@ == "RELEASE_PLATFORM_SDK_VERSION"@,
        r@[1]@ == "RELEASE_PLATFORM_SDK_VERSION_FULL"@,
        r@[2]@ == "RELEASE_PLATFORM_VERSION"@,
        r@[3]@ == "RELEASE_PLATFORM_VERSION_CODENAME"@,
        r@[4]@ == "RELEASE_HIDDEN_API_EXPORTABLE_STUBS"@,
        forall|n: Seq<char>| flag_we_care_about(n) <==> exists|i: int| 0 <= i < 5 && r@[i]@ == n,
{
    let r = vec![
        "RELEASE_PLATFORM_SDK_VERSION",
        "RELEASE_PLATFORM_SDK_VERSION_FULL",
        "RELEASE_PLATFORM_VERSION",
        "RELEASE_PLATFORM_VERSION_CODENAME",
        "RELEASE_HIDDEN_API_EXPORTABLE_STUBS",
    ];
    assert forall|n: Seq<char>| flag_we_care_about(n) implies exists|i: int|
        0 <= i < 5 && r@[i]@ == n by {
        if n == r@[0]@ {
            assert(r@[0]@ == n);
        } else if n == r@[1]@ {
            assert(r@[1]@ == n);
        } else if n == r@[2]@ {
            assert(r@[2]@ == n);
        } else if n == r@[3]@ {
            assert(r@[3]@ == n);
        } else {
            assert(r@[4]@ == n);
        }
    }
    r
}

/// Whether SDK finalization looks at the build flag `name`.
pub fn is_flag_we_care_about(name: &str) -> (r: bool)
    ensures
        r == flag_we_care_about(name@),
{
    str_eq(name, "RELEASE_PLATFORM_SDK_VERSION") || str_eq(name, "RELEASE_PLATFORM_SDK_VERSION_FULL")
        || str_eq(name, "RELEASE_PLATFORM_VERSION") || str_eq(
        name,
        "RELEASE_PLATFORM_VERSION_CODENAME",
    ) || str_eq(name, "RELEASE_HIDDEN_API_EXPORTABLE_STUBS")
}

/// The text that stands for a flag's value: the string itself, `true` or
/// `false`, and the empty string where no value is set.
pub open spec fn value_text(v: ReleaseFlagValueView) -> Seq<char> {
    match v {
        ReleaseFlagValueView::StringValue(s) => s,
        ReleaseFlagValueView::BoolValue(b) => if b {
            "true"@
        } else {
            "false"@
        },
        _ => Seq::empty(),
    }
}

/// Every value of a flag that SDK finalization looks at is unset, a string
/// or a boolean.
pub open spec fn values_supported(flags: Seq<FlagArtifactView>) -> bool {
    forall|i: int|
        0 <= i < flags.len() && flag_we_care_about((#[trigger] flags[i]).name) ==> !(
        flags[i].value is Other)
}

/// The flags that SDK finalization looks at, with their values as text; a
/// flag set twice keeps its last value.
pub open spec fn flag_map(flags: Seq<FlagArtifactView>) -> Map<Seq<char>, Seq<char>>
    decreases flags.len(),
{
    if flags.len() == 0 {
        Map::empty()
    } else {
        let m = flag_map(flags.drop_last());
        if flag_we_care_about(flags.last().name) {
            m.insert(flags.last().name, value_text(flags.last().value))
        } else {
            m
        }
    }
}

/// `aliases` with each name of `names` standing for `target`.
pub open spec fn add_aliases(
    aliases: Map<Seq<char>, Seq<char>>,
    names: Seq<Seq<char>>,
    target: Seq<char>,
) -> Map<Seq<char>, Seq<char>>
    decreases names.len(),
{
    if names.len() == 0 {
        aliases
    } else {
        add_aliases(aliases, names.drop_last(), target).insert(names.last(), target)
    }
}

/// The views of a map of strings.
pub open spec fn text_map(m: Map<Seq<char>, String>) -> Map<Seq<char>, Seq<char>> {
    m.map_values(|s: String| s@)
}

/// The views of a map of maps of strings.
pub open spec fn flag_maps_view(m: Map<Seq<char>, StringHashMap<String>>) -> Map<
    Seq<char>,
    Map<Seq<char>, Seq<char>>,
> {
    m.map_values(|inner: StringHashMap<String>| text_map(inner@))
}

fn value_string(v: &ReleaseFlagValue) -> (r: String)
    requires
        !(v@ is Other),
    ensures
        r@ == value_text(v@),
{
    match v {
        ReleaseFlagValue::Unset => String::new(),
        ReleaseFlagValue::StringValue(s) => s.clone(),
        ReleaseFlagValue::BoolValue(b) => if *b {
            String::from_str("true")
        } else {
            String::from_str("false")
        },
        ReleaseFlagValue::Other => String::new(),
    }
}

/// The flags of one release configuration that SDK finalization looks at.
fn release_config_flags(release_config: &ReleaseConfigArtifact) -> (r: StringHashMap<String>)
    requires
        values_supported(release_config@.flags),
    ensures
        text_map(r@) == flag_map(release_config@.flags),
{
    let ghost fv = release_config@.flags;
    let mut m: StringHashMap<String> = StringHashMap::new();
    let mut i: usize = 0;
    assert(text_map(m@) =~= Map::<Seq<char>, Seq<char>>::empty());
    while i < release_config.flags.len()
        invariant
            i <= release_config.flags.len(),
            fv == release_config@.flags,
            values_supported(fv),
            text_map(m@) == flag_map(fv.take(i as int)),
        decreases release_config.flags.len() - i,
    {
        let flag = &release_config.flags[i];
        assert(fv[i as int] == flag@);
        assert(fv.take(i + 1).drop_last() == fv.take(i as int));
        if is_flag_we_care_about(flag.name.as_str()) {
            let value = value_string(&flag.value);
            let ghost m0 = m@;
            m.insert(flag.name.clone(), value);
            assert(text_map(m@) =~= text_map(m0).insert(flag@.name, value@));
        }
        i = i + 1;
    }
    assert(fv.take(release_config.flags.len() as int) == fv);
    m
}

/// The build flags of every release configuration, keyed by name, and the
/// other names by which release configurations are known.
pub struct ReleaseConfigs {
    pub flags: StringHashMap<StringHashMap<String>>,
    pub aliases: StringHashMap<String>,
    names: Vec<String>,
}

pub struct ReleaseConfigsView {
    pub flags: Map<Seq<char>, Map<Seq<char>, Seq<char>>>,
    pub aliases: Map<Seq<char>, Seq<char>>,
}

impl View for ReleaseConfigs {
    type V = ReleaseConfigsView;

    closed spec fn view(&self) -> ReleaseConfigsView {
        ReleaseConfigsView { flags: flag_maps_view(self.flags@), aliases: text_map(self.aliases@) }
    }
}

/// The flags of each release configuration, keyed by name; of two release
/// configurations with one name, the later wins.
pub open spec fn build_flag_maps(configs: Seq<ReleaseConfigArtifactView>) -> Map<
    Seq<char>,
    Map<Seq<char>, Seq<char>>,
>
    decreases configs.len(),
{
    if configs.len() == 0 {
        Map::empty()
    } else {
        build_flag_maps(configs.drop_last()).insert(
            configs.last().name,
            flag_map(configs.last().flags),
        )
    }
}

/// Every other name of each release configuration, standing for its name.
pub open spec fn alias_map(configs: Seq<ReleaseConfigArtifactView>) -> Map<Seq<char>, Seq<char>>
    decreases configs.len(),
{
    if configs.len() == 0 {
        Map::empty()
    } else {
        add_aliases(alias_map(configs.drop_last()), configs.last().other_names, configs.last().name)
    }
}

/// Every value of a flag that SDK finalization looks at, in every release
/// configuration, is unset, a string or a boolean.
pub open spec fn configs_supported(configs: Seq<ReleaseConfigArtifactView>) -> bool {
    forall|i: int| 0 <= i < configs.len() ==> values_supported(#[trigger] configs[i].flags)
}

proof fn lemma_add_aliases(
    aliases: Map<Seq<char>, Seq<char>>,
    names: Seq<Seq<char>>,
    target: Seq<char>,
)
    ensures
        forall|a: Seq<char>| #[trigger]
            add_aliases(aliases, names, target).contains_key(a) ==> add_aliases(
                aliases,
                names,
                target,
            )[a] == target || (aliases.contains_key(a) && add_aliases(aliases, names, target)[a]
                == aliases[a]),
    decreases names.len(),
{
    if names.len() > 0 {
        let rest = add_aliases(aliases, names.drop_last(), target);
        lemma_add_aliases(aliases, names.drop_last(), target);
        assert forall|a: Seq<char>| #[trigger]
            add_aliases(aliases, names, target).contains_key(a) implies add_aliases(
                aliases,
                names,
                target,
            )[a] == target || (aliases.contains_key(a) && add_aliases(aliases, names, target)[a]
                == aliases[a]) by {
            if a != names.last() {
                assert(rest.contains_key(a));
            }
        }
    }
}

/// Every release configuration has its flags under its name, and every
/// alias stands for the name of a release configuration.
pub proof fn lemma_release_configs_complete(configs: Seq<ReleaseConfigArtifactView>)
    ensures
        forall|i: int|
            0 <= i < configs.len() ==> build_flag_maps(configs).contains_key(
                #[trigger] configs[i].name,
            ),
        forall|a: Seq<char>| #[trigger]
            alias_map(configs).contains_key(a) ==> build_flag_maps(configs).contains_key(
                alias_map(configs)[a],
            ),
    decreases configs.len(),
{
    if configs.len() > 0 {
        let prefix = configs.drop_last();
        lemma_release_configs_complete(prefix);
        let last = configs.last();
        assert forall|i: int| 0 <= i < configs.len() implies build_flag_maps(configs).contains_key(
            #[trigger] configs[i].name,
        ) by {
            if i < configs.len() - 1 {
                assert(prefix[i] == configs[i]);
            }
        }
        lemma_add_aliases(alias_map(prefix), last.other_names, last.name);
    }
}

impl ReleaseConfigs {
    /// The names of the release configurations occur once each, and are
    /// exactly the keys of `flags`.
    pub closed spec fn well_formed(&self) -> bool {
        &&& forall|i: int, j: int|
            0 <= i < j < self.names@.len() ==> self.names@[i]@ != self.names@[j]@
        &&& forall|k: Seq<char>|
            self.flags@.contains_key(k) <==> exists|i: int|
                0 <= i < self.names@.len() && (#[trigger] self.names@[i])@ == k
    }

    /// The flag maps of all release configurations, then their aliases.
    pub fn init(all_release_configs: &ReleaseConfigsArtifact) -> (r: Self)
        requires
            configs_supported(all_release_configs.configs()),
        ensures
            r.well_formed(),
            r@.flags == build_flag_maps(all_release_configs.configs()),
            r@.aliases == alias_map(all_release_configs.configs()),
    {
        let ghost configs = all_release_configs.configs();
        let mut r = ReleaseConfigs {
            flags: StringHashMap::new(),
            aliases: StringHashMap::new(),
            names: Vec::new(),
        };
        assert(r@.flags =~= build_flag_maps(configs.take(0)));
        assert(r@.aliases =~= alias_map(configs.take(0)));
        assert(configs[0] == all_release_configs.release_config@);
        r.add_release_config(&all_release_configs.release_config);
        assert(configs.take(1).drop_last() == configs.take(0));
        let mut i: usize = 0;
        while i < all_release_configs.other_release_configs.len()
            invariant
                i <= all_release_configs.other_release_configs.len(),
                configs == all_release_configs.configs(),
                configs_supported(configs),
                r.well_formed(),
                r@.flags == build_flag_maps(configs.take(i + 1)),
                r@.aliases == alias_map(configs.take(i + 1)),
            decreases all_release_configs.other_release_configs.len() - i,
        {
            let config = &all_release_configs.other_release_configs[i];
            assert(configs[i + 1] == config@);
            assert(configs.take(i + 2).drop_last() == configs.take(i + 1));
            r.add_release_config(config);
            i = i + 1;
        }
        assert(configs.take(i + 1) == configs);
        r
    }

    /// Adds one release configuration: its flags under its name, and its
    /// other names as aliases of its name.
    fn add_release_config(&mut self, release_config: &ReleaseConfigArtifact)
        requires
            old(self).well_formed(),
            values_supported(release_config@.flags),
        ensures
            final(self).well_formed(),
            final(self)@.flags == old(self)@.flags.insert(
                release_config@.name,
                flag_map(release_config@.flags),
            ),
            final(self)@.aliases == add_aliases(
                old(self)@.aliases,
                release_config@.other_names,
                release_config@.name,
            ),
    {
        let ghost old_names = self.names@;
        let ghost old_flags = self.flags@;
        let flags = release_config_flags(release_config);
        if !self.flags.contains_key(release_config.name.as_str()) {
            self.names.push(release_config.name.clone());
            proof {
                assert forall|i: int, j: int|
                    0 <= i < j < self.names@.len() implies self.names@[i]@ != self.names@[j]@ by {
                    if j == old_names.len() {
                        assert(self.names@[i] == old_names[i]);
                        assert(old_flags.contains_key(old_names[i]@));
                    }
                }
            }
        }
        let ghost mid_names = self.names@;
        let ghost fm = flags;
        self.flags.insert(release_config.name.clone(), flags);
        proof {
            assert forall|k: Seq<char>|
                self.flags@.contains_key(k) <==> exists|i: int|
                    0 <= i < self.names@.len() && (#[trigger] self.names@[i])@ == k by {
                if k == release_config@.name {
                    if !old_flags.contains_key(k) {
                        assert(self.names@[old_names.len() as int]@ == k);
                    }
                } else if old_flags.contains_key(k) {
                    let i = choose|i: int| 0 <= i < old_names.len() && (#[trigger] old_names[i])@ == k;
                    assert(self.names@[i] == old_names[i]);
                } else if exists|i: int| 0 <= i < self.names@.len() && (#[trigger] self.names@[i])@ == k {
                    let i = choose|i: int| 0 <= i < self.names@.len() && (#[trigger] self.names@[i])@ == k;
                    if i < old_names.len() {
                        assert(self.names@[i] == old_names[i]);
                    }
                }
            }
            assert(self@.flags =~= old(self)@.flags.insert(
                release_config@.name,
                flag_map(release_config@.flags),
            ));
        }
        let ghost flags1 = self.flags@;
        let ghost names1 = self.names@;
        assert(self.well_formed());
        let mut j: usize = 0;
        let ghost names = release_config@.other_names;
        assert(names.take(0) == Seq::<Seq<char>>::empty());
        while j < release_config.other_names.len()
            invariant
                j <= release_config.other_names.len(),
                names == release_config@.other_names,
                self.flags@ == flags1,
                self.names@ == names1,
                self.well_formed(),
                self@.flags == old(self)@.flags.insert(
                    release_config@.name,
                    flag_map(release_config@.flags),
                ),
                text_map(self.aliases@) == add_aliases(
                    old(self)@.aliases,
                    names.take(j as int),
                    release_config@.name,
                ),
            decreases release_config.other_names.len() - j,
        {
            assert(names[j as int] == release_config.other_names@[j as int]@);
            assert(names.take(j + 1).drop_last() == names.take(j as int));
            let ghost a0 = self.aliases@;
            self.aliases.insert(release_config.other_names[j].clone(), release_config.name.clone());
            assert(text_map(self.aliases@) =~= text_map(a0).insert(names[j as int], release_config@.name));
            j = j + 1;
        }
        assert(names.take(j as int) == names);
    }

    /// The names of all release configurations, each once.
    pub fn names(&self) -> (r: Vec<String>)
        requires
            self.well_formed(),
        ensures
            forall|k: Seq<char>|
                self@.flags.contains_key(k) <==> exists|i: int|
                    0 <= i < r@.len() && (#[trigger] r@[i])@ == k,
            forall|i: int, j: int| 0 <= i < j < r@.len() ==> r@[i]@ != r@[j]@,
    {
        let r = crate::text::clone_strings(&self.names);
        proof {
            assert(crate::text::strings_view(r@).len() == r@.len());
            assert(crate::text::strings_view(self.names@).len() == self.names@.len());
            assert forall|k: Seq<char>|
                self@.flags.contains_key(k) <==> exists|i: int|
                    0 <= i < r@.len() && (#[trigger] r@[i])@ == k by {
                if self@.flags.contains_key(k) {
                    assert(self.flags@.contains_key(k));
                    let i = choose|i: int|
                        0 <= i < self.names@.len() && (#[trigger] self.names@[i])@ == k;
                    assert(crate::text::strings_view(r@)[i] == r@[i]@);
                    assert(crate::text::strings_view(self.names@)[i] == self.names@[i]@);
                }
                if exists|i: int| 0 <= i < r@.len() && (#[trigger] r@[i])@ == k {
                    let i = choose|i: int| 0 <= i < r@.len() && (#[trigger] r@[i])@ == k;
                    assert(crate::text::strings_view(r@)[i] == r@[i]@);
                    assert(crate::text::strings_view(self.names@)[i] == self.names@[i]@);
                    assert(self.flags@.contains_key(k));
                }
            }
            assert forall|i: int, j: int| 0 <= i < j < r@.len() implies r@[i]@ != r@[j]@ by {
                assert(crate::text::strings_view(r@)[i] == r@[i]@);
                assert(crate::text::strings_view(r@)[j] == r@[j]@);
                assert(crate::text::strings_view(self.names@)[i] == self.names@[i]@);
                assert(crate::text::strings_view(self.names@)[j] == self.names@[j]@);
            }
        }
        r
    }
}

} // verus!
