//! The capability registry: the latest advertisement of every known peer,
//! and the ranking of the peers that serve a model.

use crate::network::{NodeCapabilities, NodeCapabilitiesView};
use crate::text;
use crate::text::text_before;
use vstd::prelude::*;
use vstd::utf8::encode_utf8;

verus! {

/// The registry's entry for one peer.
#[derive(Debug)]
pub struct PeerRecord {
    pub node_id: String,
    pub capabilities: NodeCapabilities,
    /// When the advertisement arrived, in seconds since the Unix epoch.
    pub last_updated: i64,
}

/// What a [`PeerRecord`] holds, as mathematical values.
pub struct PeerRecordView {
    pub node_id: Seq<char>,
    pub capabilities: NodeCapabilitiesView,
    pub last_updated: int,
}

impl View for PeerRecord {
    type V = PeerRecordView;

    open spec fn view(&self) -> PeerRecordView {
        PeerRecordView {
            node_id: self.node_id@,
            capabilities: self.capabilities@,
            last_updated: self.last_updated as int,
        }
    }
}

impl Clone for PeerRecord {
    fn clone(&self) -> (out: PeerRecord)
        ensures
            out@ == self@,
    {
        PeerRecord {
            node_id: self.node_id.clone(),
            capabilities: self.capabilities.clone(),
            last_updated: self.last_updated,
        }
    }
}

/// The entry that an advertisement makes when it arrives at `received_at`.
pub open spec fn record_of(adv: NodeCapabilitiesView, received_at: int) -> PeerRecordView {
    PeerRecordView { node_id: adv.node_id, capabilities: adv, last_updated: received_at }
}

/// Whether the peer advertises `model`.
pub open spec fn serves(r: PeerRecordView, model: Seq<char>) -> bool {
    r.capabilities.models.contains(model)
}

/// Whether `a` is to be tried before `b`: the peer with more memory first,
/// and of two with the same memory the one whose identifier comes first.
pub open spec fn outranks(a: PeerRecordView, b: PeerRecordView) -> bool {
    ||| a.capabilities.memory_mib > b.capabilities.memory_mib
    ||| (a.capabilities.memory_mib == b.capabilities.memory_mib && text_before(
        a.node_id,
        b.node_id,
    ))
}

/// Each entry stands under the identifier that it and its advertisement
/// name.
pub open spec fn well_keyed(table: Map<Seq<char>, PeerRecordView>) -> bool {
    forall|id: Seq<char>| #[trigger]
        table.dom().contains(id) ==> table[id].node_id == id && table[id].capabilities.node_id
            == id
}

/// Whether each record of `ranking` is to be tried before all that follow
/// it.
pub open spec fn ranked(ranking: Seq<PeerRecordView>) -> bool {
    forall|i: int, j: int|
        #![trigger ranking[i], ranking[j]]
        0 <= i < j < ranking.len() ==> outranks(ranking[i], ranking[j])
}

/// Whether `ranking` is the ranking of the peers in `table` that serve
/// `model`: it holds exactly their entries, in the order in which they are
/// to be tried.
pub open spec fn is_ranking(
    ranking: Seq<PeerRecordView>,
    table: Map<Seq<char>, PeerRecordView>,
    model: Seq<char>,
) -> bool {
    &&& ranked(ranking)
    &&& forall|i: int|
        0 <= i < ranking.len() ==> {
            &&& table.contains_pair((#[trigger] ranking[i]).node_id, ranking[i])
            &&& serves(ranking[i], model)
        }
    &&& forall|id: Seq<char>| #[trigger]
        table.dom().contains(id) && serves(table[id], model) ==> ranking.contains(table[id])
}

/// The ranking of the peers in `table` that serve `model`. There is one
/// only, see [`lemma_ranking_unique`].
pub open spec fn ranking_of(table: Map<Seq<char>, PeerRecordView>, model: Seq<char>) -> Seq<
    PeerRecordView,
> {
    choose|ranking: Seq<PeerRecordView>| is_ranking(ranking, table, model)
}

/// The identifiers of the records of a ranking, in its order.
pub open spec fn ids_of(ranking: Seq<PeerRecordView>) -> Seq<Seq<char>> {
    Seq::new(ranking.len(), |i: int| ranking[i].node_id)
}

/// The entries of `table` that arrived at `cutoff` or later.
pub open spec fn fresh_since(table: Map<Seq<char>, PeerRecordView>, cutoff: int) -> Map<
    Seq<char>,
    PeerRecordView,
> {
    table.restrict(
        Set::new(|id: Seq<char>| table.dom().contains(id) && table[id].last_updated >= cutoff),
    )
}

/// No record is to be tried before itself.
pub proof fn lemma_outranks_irreflexive(a: PeerRecordView)
    ensures
        !outranks(a, a),
{
    text::lemma_bytes_before_irreflexive(encode_utf8(a.node_id));
}

/// The order of trial is transitive.
pub proof fn lemma_outranks_transitive(a: PeerRecordView, b: PeerRecordView, c: PeerRecordView)
    requires
        outranks(a, b),
        outranks(b, c),
    ensures
        outranks(a, c),
{
    if a.capabilities.memory_mib == b.capabilities.memory_mib && b.capabilities.memory_mib
        == c.capabilities.memory_mib {
        text::lemma_bytes_before_transitive(
            encode_utf8(a.node_id),
            encode_utf8(b.node_id),
            encode_utf8(c.node_id),
        );
    }
}

/// Of two records with different identifiers one is to be tried before the
/// other.
pub proof fn lemma_outranks_total(a: PeerRecordView, b: PeerRecordView)
    requires
        a.node_id != b.node_id,
    ensures
        outranks(a, b) || outranks(b, a),
{
    text::lemma_encoding_distinguishes(a.node_id, b.node_id);
    text::lemma_bytes_before_total(encode_utf8(a.node_id), encode_utf8(b.node_id));
}

/// Two rankings that hold the same records are the same ranking.
pub proof fn lemma_ranked_same_records(a: Seq<PeerRecordView>, b: Seq<PeerRecordView>)
    requires
        ranked(a),
        ranked(b),
        forall|x: PeerRecordView| a.contains(x) <==> b.contains(x),
    ensures
        a == b,
    decreases a.len(),
{
    if a.len() == 0 {
        if b.len() > 0 {
            assert(b.contains(b[0]));
        }
        assert(a =~= b);
    } else {
        assert(a.contains(a[0]));
        assert(b.contains(a[0]));
        let k = choose|k: int| 0 <= k < b.len() && b[k] == a[0];
        assert(b.contains(b[0]));
        assert(a.contains(b[0]));
        let m = choose|m: int| 0 <= m < a.len() && a[m] == b[0];
        lemma_outranks_irreflexive(a[0]);
        if k > 0 {
            assert(outranks(b[0], b[k]));
            assert(m > 0);
            assert(outranks(a[0], a[m]));
            lemma_outranks_transitive(a[0], b[0], a[0]);
        }
        assert(a[0] == b[0]);
        let ta = a.skip(1);
        let tb = b.skip(1);
        assert(ranked(ta)) by {
            assert forall|i: int, j: int| 0 <= i < j < ta.len() implies outranks(
                #[trigger] ta[i],
                #[trigger] ta[j],
            ) by {
                assert(outranks(a[i + 1], a[j + 1]));
            }
        }
        assert(ranked(tb)) by {
            assert forall|i: int, j: int| 0 <= i < j < tb.len() implies outranks(
                #[trigger] tb[i],
                #[trigger] tb[j],
            ) by {
                assert(outranks(b[i + 1], b[j + 1]));
            }
        }
        assert forall|x: PeerRecordView| ta.contains(x) <==> tb.contains(x) by {
            lemma_outranks_irreflexive(x);
            if ta.contains(x) {
                let i = choose|i: int| 0 <= i < ta.len() && ta[i] == x;
                assert(a[i + 1] == x);
                assert(outranks(a[0], a[i + 1]));
                assert(a.contains(x));
                assert(b.contains(x));
                let j = choose|j: int| 0 <= j < b.len() && b[j] == x;
                assert(j > 0);
                assert(tb[j - 1] == x);
            }
            if tb.contains(x) {
                let i = choose|i: int| 0 <= i < tb.len() && tb[i] == x;
                assert(b[i + 1] == x);
                assert(outranks(b[0], b[i + 1]));
                assert(b.contains(x));
                assert(a.contains(x));
                let j = choose|j: int| 0 <= j < a.len() && a[j] == x;
                assert(j > 0);
                assert(ta[j - 1] == x);
            }
        }
        lemma_ranked_same_records(ta, tb);
        assert(a =~= seq![a[0]] + ta);
        assert(b =~= seq![b[0]] + tb);
    }
}

/// The ranking is determined: a registry has one ranking for a model, and
/// no more.
pub proof fn lemma_ranking_unique(
    a: Seq<PeerRecordView>,
    b: Seq<PeerRecordView>,
    table: Map<Seq<char>, PeerRecordView>,
    model: Seq<char>,
)
    requires
        is_ranking(a, table, model),
        is_ranking(b, table, model),
    ensures
        a == b,
{
    assert forall|x: PeerRecordView| a.contains(x) <==> b.contains(x) by {
        if a.contains(x) {
            let i = choose|i: int| 0 <= i < a.len() && a[i] == x;
            assert(table.contains_pair(a[i].node_id, a[i]));
            assert(table.dom().contains(x.node_id));
        }
        if b.contains(x) {
            let i = choose|i: int| 0 <= i < b.len() && b[i] == x;
            assert(table.contains_pair(b[i].node_id, b[i]));
            assert(table.dom().contains(x.node_id));
        }
    }
    lemma_ranked_same_records(a, b);
}

/// A ranking names no peer twice.
pub proof fn lemma_ranking_names_distinct(
    ranking: Seq<PeerRecordView>,
    table: Map<Seq<char>, PeerRecordView>,
    model: Seq<char>,
)
    requires
        is_ranking(ranking, table, model),
    ensures
        ids_of(ranking).no_duplicates(),
{
    assert forall|i: int, j: int|
        0 <= i < ids_of(ranking).len() && 0 <= j < ids_of(ranking).len() && i != j implies ids_of(
        ranking,
    )[i] != ids_of(ranking)[j] by {
        if ranking[i].node_id == ranking[j].node_id {
            assert(table.contains_pair(ranking[i].node_id, ranking[i]));
            assert(table.contains_pair(ranking[j].node_id, ranking[j]));
            lemma_outranks_irreflexive(ranking[i]);
            if i < j {
                assert(outranks(ranking[i], ranking[j]));
            } else {
                assert(outranks(ranking[j], ranking[i]));
            }
        }
    }
}

/// The latest advertisement of every known peer.
pub struct CapabilityRegistry {
    peers: Vec<PeerRecord>,
}

/// The views of a list of records.
pub open spec fn record_views(peers: Seq<PeerRecord>) -> Seq<PeerRecordView> {
    Seq::new(peers.len(), |i: int| peers[i]@)
}

/// Whether the entries name their peers consistently, and no peer twice.
spec fn entries_valid(entries: Seq<PeerRecordView>) -> bool {
    &&& forall|i: int|
        0 <= i < entries.len() ==> (#[trigger] entries[i]).node_id
            == entries[i].capabilities.node_id
    &&& forall|i: int, j: int|
        #![trigger entries[i], entries[j]]
        0 <= i < j < entries.len() ==> entries[i].node_id != entries[j].node_id
}

/// Whether `x` is among the first `n` entries.
spec fn among_first(entries: Seq<PeerRecordView>, n: int, x: PeerRecordView) -> bool {
    exists|j: int| 0 <= j < n && (#[trigger] entries[j]) == x
}

/// Whether `entries` holds an entry for `id`.
spec fn has_entry(entries: Seq<PeerRecordView>, id: Seq<char>) -> bool {
    exists|i: int| 0 <= i < entries.len() && (#[trigger] entries[i]).node_id == id
}

/// The place of the entry for `id`.
spec fn entry_index(entries: Seq<PeerRecordView>, id: Seq<char>) -> int {
    choose|i: int| 0 <= i < entries.len() && (#[trigger] entries[i]).node_id == id
}

/// The entries as a table from identifier to entry.
spec fn table_of(entries: Seq<PeerRecordView>) -> Map<Seq<char>, PeerRecordView> {
    Map::new(
        |id: Seq<char>| has_entry(entries, id),
        |id: Seq<char>| entries[entry_index(entries, id)],
    )
}

/// The table holds each entry under its identifier, and nothing else.
proof fn lemma_table_of(entries: Seq<PeerRecordView>)
    requires
        entries_valid(entries),
    ensures
        well_keyed(table_of(entries)),
        forall|i: int|
            0 <= i < entries.len() ==> table_of(entries).contains_pair(
                (#[trigger] entries[i]).node_id,
                entries[i],
            ),
        forall|id: Seq<char>| #[trigger]
            table_of(entries).dom().contains(id) ==> entries.contains(table_of(entries)[id]),
{
    assert forall|i: int| 0 <= i < entries.len() implies table_of(entries).contains_pair(
        (#[trigger] entries[i]).node_id,
        entries[i],
    ) by {
        let id = entries[i].node_id;
        assert(has_entry(entries, id));
        let k = entry_index(entries, id);
        assert(entries[k].node_id == id);
        if k < i {
            assert(entries[k].node_id != entries[i].node_id);
        }
        if i < k {
            assert(entries[i].node_id != entries[k].node_id);
        }
    }
    assert forall|id: Seq<char>| #[trigger] table_of(entries).dom().contains(id) implies {
        &&& entries.contains(table_of(entries)[id])
        &&& table_of(entries)[id].node_id == id
        &&& table_of(entries)[id].capabilities.node_id == id
    } by {
        let k = entry_index(entries, id);
        assert(entries[k].node_id == id);
    }
}

/// Replacing the entry of a peer replaces it in the table.
proof fn lemma_table_replace(entries: Seq<PeerRecordView>, at: int, record: PeerRecordView)
    requires
        entries_valid(entries),
        0 <= at < entries.len(),
        record.node_id == entries[at].node_id,
        record.capabilities.node_id == record.node_id,
    ensures
        entries_valid(entries.update(at, record)),
        table_of(entries.update(at, record)) == table_of(entries).insert(record.node_id, record),
{
    let after = entries.update(at, record);
    assert(entries_valid(after)) by {
        assert forall|i: int, j: int| 0 <= i < j < after.len() implies (#[trigger] after[i]).node_id
            != (#[trigger] after[j]).node_id by {
            assert(entries[i].node_id != entries[j].node_id);
        }
    }
    lemma_table_of(entries);
    lemma_table_of(after);
    assert forall|id: Seq<char>| table_of(after).dom().contains(id) <==> table_of(entries).insert(
        record.node_id,
        record,
    ).dom().contains(id) by {
        if has_entry(after, id) {
            let k = entry_index(after, id);
            assert(entries[k].node_id == id);
        }
        if has_entry(entries, id) {
            let k = entry_index(entries, id);
            assert(after[k].node_id == id);
        }
        if id == record.node_id {
            assert(after[at].node_id == id);
        }
    }
    assert forall|id: Seq<char>| #[trigger] table_of(after).dom().contains(id) implies table_of(
        after,
    )[id] == table_of(entries).insert(record.node_id, record)[id] by {
        let k = entry_index(after, id);
        assert(after[k].node_id == id);
        assert(table_of(after).contains_pair(after[k].node_id, after[k]));
        if id != record.node_id {
            assert(k != at);
            assert(table_of(entries).contains_pair(entries[k].node_id, entries[k]));
        } else {
            assert(table_of(after).contains_pair(after[at].node_id, after[at]));
        }
    }
    assert(table_of(after) =~= table_of(entries).insert(record.node_id, record));
}

/// Adding the entry of a new peer adds it to the table.
proof fn lemma_table_push(entries: Seq<PeerRecordView>, record: PeerRecordView)
    requires
        entries_valid(entries),
        !has_entry(entries, record.node_id),
        record.capabilities.node_id == record.node_id,
    ensures
        entries_valid(entries.push(record)),
        table_of(entries.push(record)) == table_of(entries).insert(record.node_id, record),
{
    let after = entries.push(record);
    assert(entries_valid(after)) by {
        assert forall|i: int, j: int| 0 <= i < j < after.len() implies (#[trigger] after[i]).node_id
            != (#[trigger] after[j]).node_id by {
            if j < entries.len() {
                assert(entries[i].node_id != entries[j].node_id);
            } else {
                assert(entries[i].node_id != record.node_id);
            }
        }
    }
    lemma_table_of(entries);
    lemma_table_of(after);
    assert forall|id: Seq<char>| table_of(after).dom().contains(id) <==> table_of(entries).insert(
        record.node_id,
        record,
    ).dom().contains(id) by {
        if has_entry(after, id) {
            let k = entry_index(after, id);
            if k < entries.len() {
                assert(entries[k].node_id == id);
            }
        }
        if has_entry(entries, id) {
            let k = entry_index(entries, id);
            assert(after[k].node_id == id);
        }
        if id == record.node_id {
            assert(after[entries.len() as int].node_id == id);
        }
    }
    assert forall|id: Seq<char>| #[trigger] table_of(after).dom().contains(id) implies table_of(
        after,
    )[id] == table_of(entries).insert(record.node_id, record)[id] by {
        let k = entry_index(after, id);
        assert(after[k].node_id == id);
        assert(table_of(after).contains_pair(after[k].node_id, after[k]));
        if id != record.node_id {
            assert(k < entries.len());
            assert(table_of(entries).contains_pair(entries[k].node_id, entries[k]));
        } else {
            let last = entries.len() as int;
            assert(table_of(after).contains_pair(after[last].node_id, after[last]));
        }
    }
    assert(table_of(after) =~= table_of(entries).insert(record.node_id, record));
}

/// Taking the entry of a peer away takes it out of the table.
proof fn lemma_table_remove(entries: Seq<PeerRecordView>, at: int)
    requires
        entries_valid(entries),
        0 <= at < entries.len(),
    ensures
        entries_valid(entries.remove(at)),
        table_of(entries.remove(at)) == table_of(entries).remove(entries[at].node_id),
{
    let after = entries.remove(at);
    let gone = entries[at].node_id;
    assert(entries_valid(after)) by {
        assert forall|i: int, j: int| 0 <= i < j < after.len() implies (#[trigger] after[i]).node_id
            != (#[trigger] after[j]).node_id by {
            let oi = if i < at {
                i
            } else {
                i + 1
            };
            let oj = if j < at {
                j
            } else {
                j + 1
            };
            assert(entries[oi].node_id != entries[oj].node_id);
        }
        assert forall|i: int| 0 <= i < after.len() implies (#[trigger] after[i]).node_id
            == after[i].capabilities.node_id by {
            let oi = if i < at {
                i
            } else {
                i + 1
            };
            assert(after[i] == entries[oi]);
        }
    }
    lemma_table_of(entries);
    lemma_table_of(after);
    assert forall|id: Seq<char>| table_of(after).dom().contains(id) <==> table_of(entries).remove(
        gone,
    ).dom().contains(id) by {
        if has_entry(after, id) {
            let k = entry_index(after, id);
            let ok = if k < at {
                k
            } else {
                k + 1
            };
            assert(entries[ok].node_id == id);
            if ok < at {
                assert(entries[ok].node_id != entries[at].node_id);
            } else {
                assert(entries[at].node_id != entries[ok].node_id);
            }
        }
        if has_entry(entries, id) && id != gone {
            let k = entry_index(entries, id);
            let nk = if k < at {
                k
            } else {
                k - 1
            };
            assert(after[nk].node_id == id);
        }
    }
    assert forall|id: Seq<char>| #[trigger] table_of(after).dom().contains(id) implies table_of(
        after,
    )[id] == table_of(entries).remove(gone)[id] by {
        let k = entry_index(after, id);
        let ok = if k < at {
            k
        } else {
            k + 1
        };
        assert(after[k] == entries[ok]);
        assert(table_of(after).contains_pair(after[k].node_id, after[k]));
        assert(table_of(entries).contains_pair(entries[ok].node_id, entries[ok]));
    }
    assert(table_of(after) =~= table_of(entries).remove(gone));
}

/// The entries that arrived at `cutoff` or later, in order.
spec fn keep_fresh(entries: Seq<PeerRecordView>, cutoff: int) -> Seq<PeerRecordView>
    decreases entries.len(),
{
    if entries.len() == 0 {
        Seq::empty()
    } else if entries.last().last_updated >= cutoff {
        keep_fresh(entries.drop_last(), cutoff).push(entries.last())
    } else {
        keep_fresh(entries.drop_last(), cutoff)
    }
}

/// Each valid list without its last entry is valid.
proof fn lemma_valid_without_last(entries: Seq<PeerRecordView>)
    requires
        entries_valid(entries),
        entries.len() > 0,
    ensures
        entries_valid(entries.drop_last()),
        !has_entry(entries.drop_last(), entries.last().node_id),
{
    let rest = entries.drop_last();
    assert forall|i: int, j: int| 0 <= i < j < rest.len() implies (#[trigger] rest[i]).node_id != (
    #[trigger] rest[j]).node_id by {
        assert(entries[i].node_id != entries[j].node_id);
    }
    assert forall|i: int| 0 <= i < rest.len() implies (#[trigger] rest[i]).node_id
        == rest[i].capabilities.node_id by {
        assert(rest[i] == entries[i]);
    }
    if has_entry(rest, entries.last().node_id) {
        let k = entry_index(rest, entries.last().node_id);
        assert(entries[k].node_id != entries[entries.len() - 1].node_id);
    }
}

/// Keeping the fresh entries of a list keeps the fresh entries of its
/// table.
proof fn lemma_keep_fresh(entries: Seq<PeerRecordView>, cutoff: int)
    requires
        entries_valid(entries),
    ensures
        entries_valid(keep_fresh(entries, cutoff)),
        keep_fresh(entries, cutoff).len() <= entries.len(),
        table_of(keep_fresh(entries, cutoff)) == fresh_since(table_of(entries), cutoff),
    decreases entries.len(),
{
    let kept = keep_fresh(entries, cutoff);
    if entries.len() == 0 {
        assert(table_of(kept) =~= fresh_since(table_of(entries), cutoff));
    } else {
        let rest = entries.drop_last();
        let last = entries.last();
        lemma_valid_without_last(entries);
        lemma_keep_fresh(rest, cutoff);
        lemma_table_push(rest, last);
        assert(rest.push(last) =~= entries);
        lemma_table_of(rest);
        lemma_table_of(entries);
        let kept_rest = keep_fresh(rest, cutoff);
        assert(!table_of(rest).dom().contains(last.node_id));
        if last.last_updated >= cutoff {
            assert(!has_entry(kept_rest, last.node_id)) by {
                assert(!table_of(kept_rest).dom().contains(last.node_id));
            }
            lemma_table_push(kept_rest, last);
            assert(table_of(kept) =~= fresh_since(table_of(entries), cutoff));
        } else {
            assert(table_of(kept) =~= fresh_since(table_of(entries), cutoff));
        }
    }
}

impl View for CapabilityRegistry {
    type V = Map<Seq<char>, PeerRecordView>;

    closed spec fn view(&self) -> Map<Seq<char>, PeerRecordView> {
        table_of(record_views(self.peers@))
    }
}

/// Whether `a` is to be tried before `b`.
fn tried_before(a: &PeerRecord, b: &PeerRecord) -> (r: bool)
    ensures
        r == outranks(a@, b@),
{
    a.capabilities.memory_mib > b.capabilities.memory_mib || (a.capabilities.memory_mib
        == b.capabilities.memory_mib && text::str_before(a.node_id.as_str(), b.node_id.as_str()))
}

impl CapabilityRegistry {
    #[verifier::type_invariant]
    spec fn valid(self) -> bool {
        entries_valid(record_views(self.peers@))
    }

    /// A registry that knows no peer.
    pub fn new() -> (registry: CapabilityRegistry)
        ensures
            registry@ == Map::<Seq<char>, PeerRecordView>::empty(),
            well_keyed(registry@),
    {
        let registry = CapabilityRegistry { peers: Vec::new() };
        assert(registry@ =~= Map::<Seq<char>, PeerRecordView>::empty());
        registry
    }

    /// The place of the entry for `node_id`, if there is one.
    fn position(&self, node_id: &str) -> (at: Option<usize>)
        ensures
            match at {
                Some(i) => i < self.peers.len() && self.peers@[i as int]@.node_id == node_id@,
                None => !has_entry(record_views(self.peers@), node_id@),
            },
    {
        let mut i: usize = 0;
        while i < self.peers.len()
            invariant
                i <= self.peers.len(),
                forall|j: int| 0 <= j < i ==> (#[trigger] record_views(self.peers@)[j]).node_id
                    != node_id@,
            decreases self.peers.len() - i,
        {
            if text::same_text(self.peers[i].node_id.as_str(), node_id) {
                return Some(i);
            }
            i += 1;
        }
        None
    }

    /// The number of peers with an entry.
    pub fn len(&self) -> (n: usize)
        ensures
            n == self@.dom().len(),
            self@.dom().finite(),
            well_keyed(self@),
    {
        proof {
            use_type_invariant(self);
            lemma_table_of(record_views(self.peers@));
            lemma_table_size(record_views(self.peers@));
        }
        self.peers.len()
    }

    /// The entry for `node_id`, if there is one.
    pub fn get(&self, node_id: &str) -> (found: Option<PeerRecord>)
        ensures
            well_keyed(self@),
            match found {
                Some(record) => self@.contains_pair(node_id@, record@),
                None => !self@.dom().contains(node_id@),
            },
    {
        proof {
            use_type_invariant(self);
            lemma_table_of(record_views(self.peers@));
        }
        match self.position(node_id) {
            Some(i) => {
                assert(record_views(self.peers@)[i as int] == self.peers@[i as int]@);
                Some(self.peers[i].clone())
            },
            None => None,
        }
    }

    /// Takes in an advertisement that arrived at `received_at`: it becomes
    /// the entry of the peer it names, in place of any earlier one.
    pub fn update(&mut self, advertisement: NodeCapabilities, received_at: i64)
        ensures
            final(self)@ == old(self)@.insert(
                advertisement@.node_id,
                record_of(advertisement@, received_at as int),
            ),
            well_keyed(final(self)@),
    {
        proof {
            use_type_invariant(&*self);
        }
        let ghost entries = record_views(self.peers@);
        let at = self.position(advertisement.node_id.as_str());
        let record = PeerRecord {
            node_id: advertisement.node_id.clone(),
            capabilities: advertisement,
            last_updated: received_at,
        };
        let mut taken = CapabilityRegistry::new();
        core::mem::swap(self, &mut taken);
        let CapabilityRegistry { peers } = taken;
        let mut peers = peers;
        match at {
            Some(i) => {
                proof {
                    assert(entries[i as int] == peers@[i as int]@);
                    lemma_table_replace(entries, i as int, record@);
                }
                peers[i] = record;
                assert(record_views(peers@) =~= entries.update(i as int, record@));
            },
            None => {
                proof {
                    lemma_table_push(entries, record@);
                }
                peers.push(record);
                assert(record_views(peers@) =~= entries.push(record@));
            },
        }
        proof {
            lemma_table_of(record_views(peers@));
        }
        *self = CapabilityRegistry { peers };
    }

    /// Forgets the peer `node_id`, as when it disconnects. Returns whether
    /// there was an entry for it.
    pub fn remove(&mut self, node_id: &str) -> (removed: bool)
        ensures
            removed == old(self)@.dom().contains(node_id@),
            final(self)@ == old(self)@.remove(node_id@),
            well_keyed(final(self)@),
    {
        proof {
            use_type_invariant(&*self);
            lemma_table_of(record_views(self.peers@));
        }
        let ghost entries = record_views(self.peers@);
        match self.position(node_id) {
            Some(i) => {
                let mut taken = CapabilityRegistry::new();
                core::mem::swap(self, &mut taken);
                let CapabilityRegistry { peers } = taken;
                let mut peers = peers;
                proof {
                    assert(entries[i as int] == peers@[i as int]@);
                    lemma_table_remove(entries, i as int);
                }
                peers.remove(i);
                assert(record_views(peers@) =~= entries.remove(i as int));
                proof {
                    lemma_table_of(record_views(peers@));
                }
                *self = CapabilityRegistry { peers };
                true
            },
            None => {
                assert(self@ =~= self@.remove(node_id@));
                false
            },
        }
    }

    /// Forgets every peer whose advertisement arrived before `cutoff`.
    /// Returns how many were forgotten.
    pub fn evict_stale(&mut self, cutoff: i64) -> (evicted: usize)
        ensures
            final(self)@ == fresh_since(old(self)@, cutoff as int),
            old(self)@.dom().finite(),
            final(self)@.dom().finite(),
            evicted == old(self)@.dom().len() - final(self)@.dom().len(),
            well_keyed(final(self)@),
    {
        proof {
            use_type_invariant(&*self);
            lemma_table_size(record_views(self.peers@));
            lemma_keep_fresh(record_views(self.peers@), cutoff as int);
        }
        let ghost entries = record_views(self.peers@);
        let mut kept: Vec<PeerRecord> = Vec::new();
        let mut i: usize = 0;
        assert(entries.take(0) =~= Seq::<PeerRecordView>::empty());
        assert(record_views(kept@) =~= Seq::<PeerRecordView>::empty());
        while i < self.peers.len()
            invariant
                i <= self.peers.len(),
                entries == record_views(self.peers@),
                record_views(kept@) == keep_fresh(entries.take(i as int), cutoff as int),
            decreases self.peers.len() - i,
        {
            let ghost before = kept@;
            let ghost done = entries.take(i + 1);
            assert(done.drop_last() =~= entries.take(i as int));
            assert(done.last() == self.peers@[i as int]@);
            if self.peers[i].last_updated >= cutoff {
                kept.push(self.peers[i].clone());
                assert(record_views(kept@) =~= record_views(before).push(
                    self.peers@[i as int]@,
                ));
            }
            i += 1;
        }
        assert(entries.take(i as int) =~= entries);
        let evicted = self.peers.len() - kept.len();
        proof {
            lemma_table_size(record_views(kept@));
            lemma_table_of(record_views(kept@));
        }
        *self = CapabilityRegistry { peers: kept };
        evicted
    }

    /// The peers that serve `model`, in the order in which they are to be
    /// tried: most memory first, and among equals by identifier.
    pub fn candidates(&self, model: &str) -> (ranking: Vec<PeerRecord>)
        ensures
            is_ranking(record_views(ranking@), self@, model@),
            record_views(ranking@) == ranking_of(self@, model@),
            well_keyed(self@),
    {
        proof {
            use_type_invariant(self);
            lemma_table_of(record_views(self.peers@));
        }
        let ghost entries = record_views(self.peers@);
        let mut ranking: Vec<PeerRecord> = Vec::new();
        let mut i: usize = 0;
        while i < self.peers.len()
            invariant
                i <= self.peers.len(),
                entries == record_views(self.peers@),
                entries_valid(entries),
                ranked(record_views(ranking@)),
                forall|k: int|
                    0 <= k < ranking.len() ==> {
                        &&& serves(#[trigger] record_views(ranking@)[k], model@)
                        &&& among_first(entries, i as int, record_views(ranking@)[k])
                    },
                forall|j: int|
                    0 <= j < i && serves(#[trigger] entries[j], model@) ==> record_views(
                        ranking@,
                    ).contains(entries[j]),
            decreases self.peers.len() - i,
        {
            let peer = &self.peers[i];
            let ghost before = record_views(ranking@);
            assert(entries[i as int] == peer@);
            if peer.capabilities.serves(model) {
                let mut at: usize = 0;

                while at < ranking.len() && !tried_before(peer, &ranking[at])
                    invariant
                        at <= ranking.len(),
                        i < self.peers.len(),
                        before == record_views(ranking@),
                        entries == record_views(self.peers@),
                        entries_valid(entries),
                        peer@ == entries[i as int],
                        forall|k: int|
                            0 <= k < ranking.len() ==> {
                                &&& serves(#[trigger] before[k], model@)
                                &&& among_first(entries, i as int, before[k])
                            },
                        forall|k: int| 0 <= k < at ==> outranks(#[trigger] before[k], peer@),
                    decreases ranking.len() - at,
                {
                    proof {
                        let other = before[at as int];
                        assert(among_first(entries, i as int, other));
                        let j = choose|j: int| 0 <= j < i && (#[trigger] entries[j]) == other;
                        assert(entries[j].node_id != entries[i as int].node_id);
                        lemma_outranks_total(other, peer@);
                    }
                    at += 1;
                }
                ranking.insert(at, peer.clone());
                let ghost after = record_views(ranking@);
                assert(after =~= before.insert(at as int, peer@));
                assert(ranked(after)) by {
                    assert forall|a: int, b: int| 0 <= a < b < after.len() implies outranks(
                        #[trigger] after[a],
                        #[trigger] after[b],
                    ) by {
                        if b < at {
                            assert(outranks(before[a], before[b]));
                        } else if b == at {
                            assert(outranks(before[a], peer@));
                        } else if a == at {
                            assert(outranks(peer@, before[at as int]));
                            if b - 1 > at {
                                assert(outranks(before[at as int], before[b - 1]));
                                lemma_outranks_transitive(
                                    peer@,
                                    before[at as int],
                                    before[b - 1],
                                );
                            }
                        } else if a < at {
                            assert(outranks(before[a], before[b - 1]));
                        } else {
                            assert(outranks(before[a - 1], before[b - 1]));
                        }
                    }
                }
                assert forall|k: int| 0 <= k < after.len() implies {
                    &&& serves(#[trigger] after[k], model@)
                    &&& among_first(entries, i + 1, after[k])
                } by {
                    if k == at {
                        assert(entries[i as int] == after[k]);
                    } else {
                        let ok = if k < at {
                            k
                        } else {
                            k - 1
                        };
                        assert(after[k] == before[ok]);
                        assert(among_first(entries, i as int, before[ok]));
                        let j = choose|j: int| 0 <= j < i && (#[trigger] entries[j]) == before[ok];
                        assert(entries[j] == after[k]);
                    }
                }
                assert forall|j: int|
                    0 <= j < i + 1 && serves(#[trigger] entries[j], model@) implies after.contains(
                    entries[j],
                ) by {
                    if j == i {
                        assert(after[at as int] == entries[j]);
                    } else {
                        assert(before.contains(entries[j]));
                        let k = choose|k: int| 0 <= k < before.len() && before[k] == entries[j];
                        let nk = if k < at {
                            k
                        } else {
                            k + 1
                        };
                        assert(after[nk] == entries[j]);
                    }
                }
            } else {
                assert forall|k: int| 0 <= k < before.len() implies among_first(
                    entries,
                    i + 1,
                    #[trigger] before[k],
                ) by {
                    assert(among_first(entries, i as int, before[k]));
                    let j = choose|j: int| 0 <= j < i && (#[trigger] entries[j]) == before[k];
                    assert(entries[j] == before[k]);
                }
            }
            i += 1;
        }
        proof {
            let views = record_views(ranking@);
            assert forall|k: int| 0 <= k < views.len() implies {
                &&& self@.contains_pair((#[trigger] views[k]).node_id, views[k])
                &&& serves(views[k], model@)
            } by {
                assert(among_first(entries, i as int, views[k]));
                let j = choose|j: int| 0 <= j < i && (#[trigger] entries[j]) == views[k];
                assert(table_of(entries).contains_pair(entries[j].node_id, entries[j]));
            }
            assert forall|id: Seq<char>| #[trigger]
                self@.dom().contains(id) && serves(self@[id], model@) implies views.contains(
                self@[id],
            ) by {
                assert(entries.contains(self@[id]));
                let j = choose|j: int| 0 <= j < entries.len() && entries[j] == self@[id];
                assert(serves(entries[j], model@));
            }
            assert(is_ranking(views, self@, model@));
            lemma_ranking_unique(views, ranking_of(self@, model@), self@, model@);
        }
        ranking
    }
}

/// A table has as many keys as the entries it was made of.
proof fn lemma_table_size(entries: Seq<PeerRecordView>)
    requires
        entries_valid(entries),
    ensures
        table_of(entries).dom().finite(),
        table_of(entries).dom().len() == entries.len(),
    decreases entries.len(),
{
    if entries.len() == 0 {
        assert(table_of(entries).dom() =~= Set::<Seq<char>>::empty());
    } else {
        let last = entries.last();
        let rest = entries.drop_last();
        assert(entries_valid(rest)) by {
            assert forall|i: int, j: int| 0 <= i < j < rest.len() implies (#[trigger] rest[i])
                .node_id != (#[trigger] rest[j]).node_id by {
                assert(entries[i].node_id != entries[j].node_id);
            }
            assert forall|i: int| 0 <= i < rest.len() implies (#[trigger] rest[i]).node_id
                == rest[i].capabilities.node_id by {
                assert(rest[i] == entries[i]);
            }
        }
        lemma_table_size(rest);
        assert(!has_entry(rest, last.node_id)) by {
            if has_entry(rest, last.node_id) {
                let k = entry_index(rest, last.node_id);
                assert(entries[k].node_id != entries[entries.len() - 1].node_id);
            }
        }
        lemma_table_push(rest, last);
        assert(rest.push(last) =~= entries);
    }
}

} // verus!
