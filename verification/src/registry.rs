//! The session log registry: maps an opaque session identifier to the
//! backing resource of its uploaded log (here, the path of the stored file).
//! One registry instance is injected into the handlers and shared behind a
//! lock; each operation is a single pass over the entries. Removal is
//! idempotent: removing an absent identifier is a no-op, never an error.
//! Deleting a removed entry's backing file is the caller's concern.

use crate::text::str_equal;
use vstd::prelude::*;

verus! {

/// The query parameters of a session-close request.
pub struct CloseSessionQuery {
    pub session_id: String,
}

/// The registry itself: an association list with pairwise distinct keys.
pub struct LogRegistry {
    entries: Vec<(String, String)>,
}

/// No two entries share a key.
spec fn unique_keys(entries: Seq<(String, String)>) -> bool {
    forall|a: int, b: int|
        0 <= a < b < entries.len() ==> (#[trigger] entries[a]).0@ != (#[trigger] entries[b]).0@
}

/// No entry carries this key.
spec fn key_absent(entries: Seq<(String, String)>, key: Seq<char>) -> bool {
    forall|t: int| 0 <= t < entries.len() ==> (#[trigger] entries[t]).0@ != key
}

/// The map an entry list stands for.
pub open spec fn entries_map(entries: Seq<(String, String)>) -> Map<Seq<char>, Seq<char>>
    decreases entries.len(),
{
    if entries.len() == 0 {
        Map::empty()
    } else {
        entries_map(entries.drop_last()).insert(entries.last().0@, entries.last().1@)
    }
}

impl View for LogRegistry {
    type V = Map<Seq<char>, Seq<char>>;

    closed spec fn view(&self) -> Map<Seq<char>, Seq<char>> {
        entries_map(self.entries@)
    }
}

impl LogRegistry {
    /// The registry's internal invariant: keys are pairwise distinct.
    pub closed spec fn wf(&self) -> bool {
        unique_keys(self.entries@)
    }

    /// An empty registry.
    pub fn new() -> (registry: LogRegistry)
        ensures
            registry.wf(),
            registry@ == Map::<Seq<char>, Seq<char>>::empty(),
    {
        LogRegistry { entries: Vec::new() }
    }
}

/// A key no entry carries is not in the map, and removing it changes
/// nothing.
proof fn lemma_entries_map_absent(entries: Seq<(String, String)>, key: Seq<char>)
    requires
        key_absent(entries, key),
    ensures
        !entries_map(entries).dom().contains(key),
        entries_map(entries).remove(key) == entries_map(entries),
    decreases entries.len(),
{
    if entries.len() == 0 {
        assert(entries_map(entries).remove(key) =~= entries_map(entries));
    } else {
        let prefix = entries.drop_last();
        assert forall|t: int| 0 <= t < prefix.len() implies (#[trigger] prefix[t]).0@ != key by {
            assert(prefix[t] == entries[t]);
        }
        lemma_entries_map_absent(prefix, key);
        assert(entries.last() == entries[entries.len() - 1]);
        assert(entries.last().0@ != key);
        assert(entries_map(entries).remove(key) =~= entries_map(entries));
    }
}

/// The entry carrying a key gives the key's value in the map.
proof fn lemma_entries_map_found(entries: Seq<(String, String)>, key: Seq<char>, i: int)
    requires
        unique_keys(entries),
        0 <= i < entries.len(),
        entries[i].0@ == key,
    ensures
        entries_map(entries).dom().contains(key),
        entries_map(entries)[key] == entries[i].1@,
    decreases entries.len(),
{
    let prefix = entries.drop_last();
    if i == entries.len() - 1 {
        assert(entries.last() == entries[i]);
    } else {
        assert forall|a: int, b: int| 0 <= a < b < prefix.len() implies (#[trigger] prefix[a]).0@
            != (#[trigger] prefix[b]).0@ by {
            assert(prefix[a] == entries[a]);
            assert(prefix[b] == entries[b]);
        }
        assert(prefix[i] == entries[i]);
        lemma_entries_map_found(prefix, key, i);
        assert(entries.last() == entries[entries.len() - 1]);
        assert(entries.last().0@ != key);
    }
}

/// Removing the entry carrying a key removes the key from the map.
proof fn lemma_entries_map_remove(entries: Seq<(String, String)>, key: Seq<char>, i: int)
    requires
        unique_keys(entries),
        0 <= i < entries.len(),
        entries[i].0@ == key,
    ensures
        entries_map(entries.remove(i)) == entries_map(entries).remove(key),
    decreases entries.len(),
{
    let prefix = entries.drop_last();
    if i == entries.len() - 1 {
        assert(entries.remove(i) =~~= prefix);
        assert forall|t: int| 0 <= t < prefix.len() implies (#[trigger] prefix[t]).0@ != key by {
            assert(prefix[t] == entries[t]);
        }
        lemma_entries_map_absent(prefix, key);
        assert(entries.last() == entries[i]);
        assert(entries_map(entries).remove(key) =~= entries_map(prefix));
    } else {
        assert forall|a: int, b: int| 0 <= a < b < prefix.len() implies (#[trigger] prefix[a]).0@
            != (#[trigger] prefix[b]).0@ by {
            assert(prefix[a] == entries[a]);
            assert(prefix[b] == entries[b]);
        }
        assert(prefix[i] == entries[i]);
        lemma_entries_map_remove(prefix, key, i);
        assert(entries.remove(i).drop_last() =~~= prefix.remove(i));
        assert(entries.remove(i).len() == entries.len() - 1);
        assert(entries.remove(i).last() == entries.last());
        assert(entries.last() == entries[entries.len() - 1]);
        assert(entries.last().0@ != key);
        assert(entries_map(entries.remove(i)) == entries_map(prefix.remove(i)).insert(
            entries.last().0@,
            entries.last().1@,
        ));
        assert(entries_map(entries).remove(key) =~= entries_map(prefix).remove(key).insert(
            entries.last().0@,
            entries.last().1@,
        ));
    }
}

/// Removes the entry carrying the identifier, if any, and hands its value
/// back.
fn remove_entry(entries: &mut Vec<(String, String)>, session_id: &str) -> (removed: Option<String>)
    requires
        unique_keys(old(entries)@),
    ensures
        unique_keys(final(entries)@),
        key_absent(final(entries)@, session_id@),
        entries_map(final(entries)@) == entries_map(old(entries)@).remove(session_id@),
        match removed {
            Some(path) => entries_map(old(entries)@).dom().contains(session_id@) && entries_map(
                old(entries)@,
            )[session_id@] == path@,
            None => !entries_map(old(entries)@).dom().contains(session_id@),
        },
{
    let mut j: usize = 0;
    while j < entries.len()
        invariant
            entries@ == old(entries)@,
            unique_keys(entries@),
            0 <= j <= entries@.len(),
            forall|t: int| 0 <= t < j ==> (#[trigger] entries@[t]).0@ != session_id@,
        decreases entries@.len() - j,
    {
        if str_equal(entries[j].0.as_str(), session_id) {
            proof {
                lemma_entries_map_found(entries@, session_id@, j as int);
                lemma_entries_map_remove(entries@, session_id@, j as int);
            }
            let entry = entries.remove(j);
            proof {
                assert forall|a: int, b: int| 0 <= a < b < entries@.len() implies (
                #[trigger] entries@[a]).0@ != (#[trigger] entries@[b]).0@ by {
                    assert(entries@[a] == old(entries)@.remove(j as int)[a]);
                    assert(entries@[b] == old(entries)@.remove(j as int)[b]);
                    if a < j {
                        assert(entries@[a] == old(entries)@[a]);
                    } else {
                        assert(entries@[a] == old(entries)@[a + 1]);
                    }
                    if b < j {
                        assert(entries@[b] == old(entries)@[b]);
                    } else {
                        assert(entries@[b] == old(entries)@[b + 1]);
                    }
                }
                assert forall|t: int| 0 <= t < entries@.len() implies (#[trigger] entries@[t]).0@
                    != session_id@ by {
                    if t < j {
                        assert(entries@[t] == old(entries)@[t]);
                    } else {
                        assert(entries@[t] == old(entries)@[t + 1]);
                    }
                }
            }
            return Some(entry.1);
        }
        j += 1;
    }
    proof {
        lemma_entries_map_absent(entries@, session_id@);
    }
    None
}

/// Stores the backing resource for a session identifier, replacing any
/// earlier entry under the same identifier.
pub fn save_user_log(registry: &mut LogRegistry, session_id: &str, file_path: String)
    requires
        old(registry).wf(),
    ensures
        final(registry).wf(),
        final(registry)@ == old(registry)@.insert(session_id@, file_path@),
{
    let ghost m0 = registry@;
    let ghost fp = file_path@;
    let _ = remove_entry(&mut registry.entries, session_id);
    let ghost cleaned = registry.entries@;
    registry.entries.push((session_id.to_owned(), file_path));
    proof {
        assert forall|a: int, b: int| 0 <= a < b < registry.entries@.len() implies (
        #[trigger] registry.entries@[a]).0@ != (#[trigger] registry.entries@[b]).0@ by {
            if b < cleaned.len() {
                assert(registry.entries@[a] == cleaned[a]);
                assert(registry.entries@[b] == cleaned[b]);
            } else {
                assert(registry.entries@[a] == cleaned[a]);
                assert(registry.entries@[b].0@ == session_id@);
            }
        }
        assert(registry.entries@.drop_last() =~~= cleaned);
        assert(registry.entries@.last().0@ == session_id@);
        assert(registry.entries@.last().1@ == fp);
        assert(entries_map(registry.entries@) == entries_map(cleaned).insert(session_id@, fp));
        assert(m0.remove(session_id@).insert(session_id@, fp) =~= m0.insert(session_id@, fp));
    }
}

/// Looks a session identifier up: the stored resource, or not-found.
pub fn get_user_log(registry: &LogRegistry, session_id: &str) -> (resource: Option<String>)
    requires
        registry.wf(),
    ensures
        match resource {
            Some(path) => registry@.dom().contains(session_id@) && registry@[session_id@]
                == path@,
            None => !registry@.dom().contains(session_id@),
        },
{
    let entries = &registry.entries;
    let mut j: usize = 0;
    while j < entries.len()
        invariant
            entries@ == registry.entries@,
            unique_keys(entries@),
            0 <= j <= entries@.len(),
            forall|t: int| 0 <= t < j ==> (#[trigger] entries@[t]).0@ != session_id@,
        decreases entries@.len() - j,
    {
        if str_equal(entries[j].0.as_str(), session_id) {
            proof {
                lemma_entries_map_found(entries@, session_id@, j as int);
            }
            return Some(entries[j].1.clone());
        }
        j += 1;
    }
    proof {
        lemma_entries_map_absent(entries@, session_id@);
    }
    None
}

/// Removes a session from the registry, handing back the stored resource so
/// the caller can release it. Removing an unknown identifier changes nothing
/// and reports `None`.
pub fn remove_user_log(registry: &mut LogRegistry, session_id: &str) -> (removed: Option<String>)
    requires
        old(registry).wf(),
    ensures
        final(registry).wf(),
        final(registry)@ == old(registry)@.remove(session_id@),
        match removed {
            Some(path) => old(registry)@.dom().contains(session_id@) && old(
                registry,
            )@[session_id@] == path@,
            None => !old(registry)@.dom().contains(session_id@),
        },
{
    remove_entry(&mut registry.entries, session_id)
}

/// Closing a session and then looking the same identifier up always reports
/// not-found, whatever the registry held before.
pub proof fn lemma_close_then_get(m: Map<Seq<char>, Seq<char>>, session_id: Seq<char>)
    ensures
        !m.remove(session_id).dom().contains(session_id),
{
}

/// Closing an unknown session changes nothing — it is a no-op, not an error.
pub proof fn lemma_close_unknown_is_noop(m: Map<Seq<char>, Seq<char>>, session_id: Seq<char>)
    requires
        !m.dom().contains(session_id),
    ensures
        m.remove(session_id) == m,
{
    assert(m.remove(session_id) =~= m);
}

} // verus!
