//! The in-memory instance registry.
//!
//! A registry is a set of game instances keyed by identifier. Identifiers
//! within one registry are unique; the order of the entries carries no
//! meaning. Creating an instance under an identifier that is already present
//! overwrites the old record (last write wins); removing an absent identifier
//! is a normal outcome, not an error.

use vstd::prelude::*;

verus! {

/// One registered game: its display name and the path of its executable.
/// Neither field is validated; the path in particular need not exist.
pub struct GameInstance {
    pub game_name: String,
    pub game_path: String,
}

/// The mathematical value of a `GameInstance`: its two fields as character
/// sequences.
pub ghost struct GameInstanceView {
    pub game_name: Seq<char>,
    pub game_path: Seq<char>,
}

impl View for GameInstance {
    type V = GameInstanceView;

    open spec fn view(&self) -> GameInstanceView {
        GameInstanceView { game_name: self.game_name@, game_path: self.game_path@ }
    }
}

/// The registry of all instances, keyed by identifier.
pub struct Config {
    pub instances: Vec<(String, GameInstance)>,
}

/// No identifier occurs twice in `s`.
pub open spec fn unique_ids(s: Seq<(String, GameInstance)>) -> bool {
    forall|i: int, j: int| 0 <= i < j < s.len() ==> s[i].0@ != s[j].0@
}

/// The map from identifiers to records that `s` holds; on a duplicated
/// identifier the later entry wins.
pub open spec fn map_of(s: Seq<(String, GameInstance)>) -> Map<Seq<char>, GameInstanceView>
    decreases s.len(),
{
    if s.len() == 0 {
        Map::empty()
    } else {
        map_of(s.drop_last()).insert(s.last().0@, s.last().1@)
    }
}

impl Config {
    /// The registry is well formed: its identifiers are unique.
    pub open spec fn wf(self) -> bool {
        unique_ids(self.instances@)
    }

    /// The registry as a map from identifier to record.
    pub open spec fn as_map(self) -> Map<Seq<char>, GameInstanceView> {
        map_of(self.instances@)
    }

    /// An empty registry.
    pub fn new() -> (c: Config)
        ensures
            c.wf(),
            c.as_map() == Map::<Seq<char>, GameInstanceView>::empty(),
            c.instances@.len() == 0,
    {
        Config { instances: Vec::new() }
    }
}

/// A key of `map_of(s)` is exactly an identifier that occurs in `s`.
pub proof fn lemma_map_of_contains(s: Seq<(String, GameInstance)>)
    ensures
        forall|k: Seq<char>|
            map_of(s).contains_key(k) <==> exists|i: int| 0 <= i < s.len() && s[i].0@ == k,
    decreases s.len(),
{
    if s.len() == 0 {
    } else {
        let dl = s.drop_last();
        lemma_map_of_contains(dl);
        assert forall|k: Seq<char>| map_of(s).contains_key(k) implies exists|i: int|
            0 <= i < s.len() && s[i].0@ == k by {
            if k == s.last().0@ {
                assert(s[s.len() - 1].0@ == k);
            } else {
                assert(map_of(dl).contains_key(k));
                let i = choose|i: int| 0 <= i < dl.len() && dl[i].0@ == k;
                assert(dl[i] == s[i]);
                assert(s[i].0@ == k);
            }
        }
        assert forall|k: Seq<char>| (exists|i: int| 0 <= i < s.len() && s[i].0@ == k)
            implies map_of(s).contains_key(k) by {
            let i = choose|i: int| 0 <= i < s.len() && s[i].0@ == k;
            if i < s.len() - 1 {
                assert(dl[i] == s[i]);
                assert(dl[i].0@ == k);
                assert(map_of(dl).contains_key(k));
            } else {
                assert(k == s.last().0@);
            }
        }
    }
}

/// Under unique identifiers, `map_of(s)` sends the identifier of each entry
/// to that entry's record.
pub proof fn lemma_map_of_index(s: Seq<(String, GameInstance)>, i: int)
    requires
        unique_ids(s),
        0 <= i < s.len(),
    ensures
        map_of(s).contains_key(s[i].0@),
        map_of(s)[s[i].0@] == s[i].1@,
    decreases s.len(),
{
    if i == s.len() - 1 {
    } else {
        let dl = s.drop_last();
        assert(dl[i] == s[i]);
        lemma_map_of_index(dl, i);
        assert(s[i].0@ != s.last().0@);
    }
}

/// Removing the entry at `i` from `s` removes exactly its identifier from the
/// map, provided identifiers are unique.
pub proof fn lemma_map_of_remove(s: Seq<(String, GameInstance)>, i: int)
    requires
        unique_ids(s),
        0 <= i < s.len(),
    ensures
        map_of(s.remove(i)) == map_of(s).remove(s[i].0@),
    decreases s.len(),
{
    let k = s[i].0@;
    if i == s.len() - 1 {
        assert(s.remove(i) =~= s.drop_last());
        lemma_map_of_contains(s.drop_last());
        assert(!map_of(s.drop_last()).contains_key(k));
        assert(map_of(s.remove(i)) =~= map_of(s).remove(k));
    } else {
        let dl = s.drop_last();
        assert(dl[i] == s[i]);
        lemma_map_of_remove(dl, i);
        assert(s.remove(i).drop_last() =~= dl.remove(i));
        assert(s.remove(i).last() == s.last());
        assert(s.remove(i).len() == s.len() - 1);
        assert(map_of(s.remove(i)) == map_of(dl.remove(i)).insert(s.last().0@, s.last().1@));
        assert(k != s.last().0@);
        assert(map_of(dl).remove(k).insert(s.last().0@, s.last().1@) =~= map_of(s).remove(k));
    }
}

/// The index of the entry of `instances` whose identifier is `id`, if any.
fn find_id(instances: &Vec<(String, GameInstance)>, id: &String) -> (r: Option<usize>)
    ensures
        match r {
            Some(i) => i < instances@.len() && instances@[i as int].0@ == id@,
            None => forall|j: int| 0 <= j < instances@.len() ==> instances@[j].0@ != id@,
        },
{
    let n = instances.len();
    let mut i: usize = 0;
    while i < n
        invariant
            i <= n,
            n == instances@.len(),
            forall|j: int| 0 <= j < i ==> instances@[j].0@ != id@,
        decreases n - i,
    {
        if instances[i].0 == *id {
            return Some(i);
        }
        i = i + 1;
    }
    None
}

/// Writes the record for `instance_id` into the registry: a new entry if the
/// identifier was absent, an overwrite of the old record if it was present.
/// Returns whether the identifier was already present, so that the caller can
/// report an update rather than a creation.
pub fn add_game_to_config(
    config: &mut Config,
    instance_id: String,
    game_name: String,
    game_path: String,
) -> (existed: bool)
    requires
        old(config).wf(),
    ensures
        final(config).wf(),
        final(config).as_map() == old(config).as_map().insert(
            instance_id@,
            GameInstanceView { game_name: game_name@, game_path: game_path@ },
        ),
        existed == old(config).as_map().contains_key(instance_id@),
{
    let ghost s0 = config.instances@;
    let ghost k = instance_id@;
    let ghost v = GameInstanceView { game_name: game_name@, game_path: game_path@ };
    proof {
        lemma_map_of_contains(s0);
    }
    let game = GameInstance { game_name, game_path };
    match find_id(&config.instances, &instance_id) {
        Some(i) => {
            config.instances.remove(i);
            let ghost s1 = config.instances@;
            config.instances.push((instance_id, game));
            proof {
                lemma_map_of_remove(s0, i as int);
                s0.remove_ensures(i as int);
                assert(unique_ids(s1));
                assert forall|j: int| 0 <= j < s1.len() implies s1[j].0@ != s0[i as int].0@ by {
                    if j < i {
                        assert(s1[j] == s0[j]);
                    } else {
                        assert(s1[j] == s0[j + 1]);
                    }
                }
                assert(unique_ids(config.instances@));
                assert(config.instances@.drop_last() =~= s1);
                assert(map_of(config.instances@) == map_of(s1).insert(s0[i as int].0@, v));
                assert(map_of(s0).remove(s0[i as int].0@).insert(s0[i as int].0@, v)
                    =~= map_of(s0).insert(s0[i as int].0@, v));
            }
            true
        },
        None => {
            config.instances.push((instance_id, game));
            proof {
                assert(unique_ids(config.instances@));
                assert(config.instances@.drop_last() =~= s0);
                assert(map_of(config.instances@) == map_of(s0).insert(k, v));
            }
            false
        },
    }
}

/// The outcome of removing an identifier from the registry.
pub enum RemoveOutcome {
    /// The identifier was present; its record, now removed, is carried for
    /// confirmation messaging.
    Removed(GameInstance),
    /// The identifier was absent. This is a normal outcome, not an error.
    NotFound,
}

/// Removes the record stored under `instance_id`, if there is one. On
/// `NotFound` the registry is left exactly as it was.
pub fn remove_game_from_config(config: &mut Config, instance_id: &String) -> (r: RemoveOutcome)
    requires
        old(config).wf(),
    ensures
        final(config).wf(),
        match r {
            RemoveOutcome::Removed(g) => old(config).as_map().contains_key(instance_id@)
                && g@ == old(config).as_map()[instance_id@]
                && final(config).as_map() == old(config).as_map().remove(instance_id@),
            RemoveOutcome::NotFound => !old(config).as_map().contains_key(instance_id@)
                && *final(config) == *old(config),
        },
{
    let ghost s0 = config.instances@;
    proof {
        lemma_map_of_contains(s0);
    }
    match find_id(&config.instances, instance_id) {
        Some(i) => {
            proof {
                lemma_map_of_index(s0, i as int);
                lemma_map_of_remove(s0, i as int);
                s0.remove_ensures(i as int);
            }
            let (_, game) = config.instances.remove(i);
            proof {
                let s1 = config.instances@;
                assert forall|p: int, q: int| 0 <= p < q < s1.len() implies s1[p].0@ != s1[q].0@ by {
                    if q < i {
                    } else if p < i {
                        assert(s1[p] == s0[p]);
                        assert(s1[q] == s0[q + 1]);
                    } else {
                        assert(s1[p] == s0[p + 1]);
                        assert(s1[q] == s0[q + 1]);
                    }
                }
            }
            RemoveOutcome::Removed(game)
        },
        None => RemoveOutcome::NotFound,
    }
}

/// Creating an instance in an empty registry yields a registry with exactly
/// that one entry, stored under its identifier.
pub proof fn lemma_create_in_empty(
    m: Map<Seq<char>, GameInstanceView>,
    id: Seq<char>,
    g: GameInstanceView,
)
    requires
        m == Map::<Seq<char>, GameInstanceView>::empty(),
    ensures
        m.insert(id, g).dom() =~= set![id],
        m.insert(id, g)[id] == g,
{
}

/// Creating twice under the same identifier stores one record, the second
/// one: the first write is overwritten, not duplicated.
pub proof fn lemma_create_overwrites(
    m: Map<Seq<char>, GameInstanceView>,
    id: Seq<char>,
    g1: GameInstanceView,
    g2: GameInstanceView,
)
    ensures
        m.insert(id, g1).insert(id, g2) =~= m.insert(id, g2),
        m.insert(id, g1).insert(id, g2)[id] == g2,
{
}

/// Creating an instance in an empty registry and then removing its
/// identifier hands back exactly the created record and leaves the registry
/// empty again.
pub proof fn lemma_remove_created(
    m: Map<Seq<char>, GameInstanceView>,
    id: Seq<char>,
    g: GameInstanceView,
)
    requires
        m == Map::<Seq<char>, GameInstanceView>::empty(),
    ensures
        m.insert(id, g)[id] == g,
        m.insert(id, g).remove(id) =~= m,
{
}

} // verus!
