use crate::text::{copy_texts, holds_text, texts};
use vstd::hash_map::StringHashMap;
use vstd::prelude::*;

verus! {

/// What a visibility policy says, as plain values.
pub struct PolicyView {
    /// Kinds that are hidden, if such a list is set.
    pub blacklist: Option<Seq<Seq<char>>>,
    /// The only kinds that are shown, if such a list is set.
    pub whitelist: Option<Seq<Seq<char>>>,
    /// The kinds that each short name stands for.
    pub group: Map<Seq<char>, Seq<Seq<char>>>,
}

/// Whether nodes of `kind` are shown. A whitelist shows what it lists
/// and nothing else; without one, a blacklist hides what it lists; with
/// neither, every kind is shown.
pub open spec fn visible(p: PolicyView, kind: Seq<char>) -> bool {
    match p.whitelist {
        Some(shown) => shown.contains(kind),
        None => match p.blacklist {
            Some(hidden) => !hidden.contains(kind),
            None => true,
        },
    }
}

/// The kinds that the name `kind` stands for: those of its group, or
/// `kind` alone where it names no group.
pub open spec fn resolve(p: PolicyView, kind: Seq<char>) -> Seq<Seq<char>> {
    if p.group.contains_key(kind) {
        p.group[kind]
    } else {
        seq![kind]
    }
}

/// The name of the policy for languages that have none of their own.
pub open spec fn fallback() -> Seq<char> {
    "default"@
}

/// The policy for `filetype` among `policies`.
pub open spec fn lookup(policies: Map<Seq<char>, PolicyView>, filetype: Seq<char>) -> PolicyView {
    if policies.contains_key(filetype) {
        policies[filetype]
    } else {
        policies[fallback()]
    }
}

/// The visibility policy of one language.
pub struct FiletypeConfig {
    blacklist: Option<Vec<String>>,
    whitelist: Option<Vec<String>>,
    group: StringHashMap<Vec<String>>,
}

impl View for FiletypeConfig {
    type V = PolicyView;

    closed spec fn view(&self) -> PolicyView {
        PolicyView {
            blacklist: match self.blacklist {
                Some(list) => Some(texts(list@)),
                None => None,
            },
            whitelist: match self.whitelist {
                Some(list) => Some(texts(list@)),
                None => None,
            },
            group: self.group@.map_values(|kinds: Vec<String>| texts(kinds@)),
        }
    }
}

impl Default for FiletypeConfig {
    /// The policy that shows every kind and knows no group.
    fn default() -> (policy: FiletypeConfig)
        ensures
            policy@ == (PolicyView { blacklist: None, whitelist: None, group: Map::empty() }),
    {
        let policy = FiletypeConfig {
            blacklist: None,
            whitelist: None,
            group: StringHashMap::new(),
        };
        assert(policy@.group =~= Map::empty());
        policy
    }
}

impl FiletypeConfig {
    /// A policy with the given lists and no group.
    pub fn new(
        blacklist: Option<Vec<String>>,
        whitelist: Option<Vec<String>>,
    ) -> (policy: FiletypeConfig)
        ensures
            policy@ == (PolicyView {
                blacklist: match blacklist {
                    Some(list) => Some(texts(list@)),
                    None => None,
                },
                whitelist: match whitelist {
                    Some(list) => Some(texts(list@)),
                    None => None,
                },
                group: Map::empty(),
            }),
    {
        let policy = FiletypeConfig { blacklist, whitelist, group: StringHashMap::new() };
        assert(policy@.group =~= Map::empty());
        policy
    }

    /// Lets the name `name` stand for `kinds`, in place of what it stood
    /// for before.
    pub fn set_group(&mut self, name: String, kinds: Vec<String>)
        ensures
            final(self)@ == (PolicyView {
                group: old(self)@.group.insert(name@, texts(kinds@)),
                ..old(self)@
            }),
    {
        let ghost before = self.group@;
        self.group.insert(name, kinds);
        assert(self@.group =~= before.map_values(|kinds: Vec<String>| texts(kinds@)).insert(
            name@,
            texts(kinds@),
        ));
    }

    /// Tells whether nodes of `kind` are shown.
    pub fn is_node_visible(&self, kind: &str) -> (shown: bool)
        ensures
            shown == visible(self@, kind@),
    {
        match &self.whitelist {
            Some(whitelist) => holds_text(whitelist, kind),
            None => match &self.blacklist {
                Some(blacklist) => !holds_text(blacklist, kind),
                None => true,
            },
        }
    }

    /// The kinds that the name `kind` stands for.
    pub fn resolve_alias(&self, kind: &str) -> (kinds: Vec<String>)
        ensures
            texts(kinds@) == resolve(self@, kind@),
    {
        match self.group.get(kind) {
            Some(group) => copy_texts(group),
            None => {
                let mut kinds: Vec<String> = Vec::new();
                kinds.push(kind.to_owned());
                assert(texts(kinds@) =~= seq![kind@]);
                kinds
            },
        }
    }
}

/// The visibility policies of all languages, by language name. There is
/// always one under the name `default`.
pub struct Config {
    filetype: StringHashMap<FiletypeConfig>,
}

impl View for Config {
    type V = Map<Seq<char>, PolicyView>;

    closed spec fn view(&self) -> Map<Seq<char>, PolicyView> {
        self.filetype@.map_values(|policy: FiletypeConfig| policy@)
    }
}

impl Default for Config {
    /// The configuration whose one policy, `default`, shows every kind.
    fn default() -> (config: Config)
        ensures
            config.wf(),
            config@ == Map::<Seq<char>, PolicyView>::empty().insert(
                fallback(),
                PolicyView { blacklist: None, whitelist: None, group: Map::empty() },
            ),
    {
        let mut filetype: StringHashMap<FiletypeConfig> = StringHashMap::new();
        filetype.insert("default".to_owned(), FiletypeConfig::default());
        let config = Config { filetype };
        assert(config@ =~= Map::<Seq<char>, PolicyView>::empty().insert(
            fallback(),
            PolicyView { blacklist: None, whitelist: None, group: Map::empty() },
        ));
        config
    }
}

impl Config {
    /// The invariant of the type: there is a policy named `default`.
    pub open spec fn wf(&self) -> bool {
        self@.contains_key(fallback())
    }

    /// Sets the policy of the language `filetype`, in place of the one it
    /// had, if any.
    pub fn set_filetype_config(&mut self, filetype: String, policy: FiletypeConfig)
        requires
            old(self).wf(),
        ensures
            final(self).wf(),
            final(self)@ == old(self)@.insert(filetype@, policy@),
    {
        let ghost before = self.filetype@;
        self.filetype.insert(filetype, policy);
        assert(self@ =~= before.map_values(|policy: FiletypeConfig| policy@).insert(
            filetype@,
            policy@,
        ));
    }

    /// The policy of the language `filetype`, or the one named `default`
    /// where the language has none.
    pub fn get_filetype_config<'a>(&'a self, filetype: &str) -> (policy: &'a FiletypeConfig)
        requires
            self.wf(),
        ensures
            policy@ == lookup(self@, filetype@),
    {
        let own = self.filetype.get(filetype);
        if own.is_some() {
            own.unwrap()
        } else {
            self.filetype.get("default").unwrap()
        }
    }
}

} // verus!
