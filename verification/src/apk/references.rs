//! The code references of an archive.
use super::entries::{dex_entries, parse_dex_entries};
use super::probe::{law_probe_reads_a_prefix, prefix_probe, probe_outcome, probes, PrefixPolicy};
use crate::dex::container::{
    logical_dexes, logical_of, logical_views, LogicalDex, LogicalView,
};
use crate::dex::prefix::{
    law_skipped_file_has_no_rows, named_class, prefix_has_targets, prefix_targets,
};
use crate::dex::scan::{find_references, references_of, row_views, ReferenceRow, RowView};
use crate::error::Error;
use crate::order::{
    lemma_text_order, lemma_text_transitive, order_text, text_less, Order,
};
use crate::query::{Query, QueryView};
use crate::seqs::{
    collect, joined, lemma_collect_fails, lemma_collect_succeeds, lemma_joined_comes_from,
    lemma_joined_has,
};
use crate::text::lemma_cut;
use crate::zip::{
    bytes_outcome, entry_views, inflate_entry, inflates_to, BytesSource, EntryView, ZipEntry,
};
use rayon::slice::ParallelSliceMut;
use vstd::prelude::*;

verus! {

/// One reference hit, structured.
///
/// The order of the fields is the order the rows are sorted in.
#[derive(Clone, Debug, PartialEq, Eq, PartialOrd, Ord)]
pub struct ReferenceHit {
    pub dex_name: String,
    pub member: String,
    /// The contents of the printed `matched=(...)`, without the wrapper.
    pub matched: String,
}

/// A hit, with its texts as characters.
#[verifier::ext_equal]
pub struct HitView {
    pub dex_name: Seq<char>,
    pub member: Seq<char>,
    pub matched: Seq<char>,
}

impl View for ReferenceHit {
    type V = HitView;

    open spec fn view(&self) -> HitView {
        HitView { dex_name: self.dex_name@, member: self.member@, matched: self.matched@ }
    }
}

/// The views of a list of hits.
pub open spec fn hit_views(hits: Seq<ReferenceHit>) -> Seq<HitView> {
    hits.map_values(|hit: ReferenceHit| hit@)
}

/// The line that is printed for a hit.
pub open spec fn hit_text(hit: HitView) -> Seq<char> {
    hit.dex_name + " | "@ + hit.member + " | matched=("@ + hit.matched + seq![')']
}

/// Whether one hit comes before another.
pub open spec fn hit_less(a: HitView, b: HitView) -> bool {
    ||| text_less(a.dex_name, b.dex_name)
    ||| a.dex_name == b.dex_name && text_less(a.member, b.member)
    ||| a.dex_name == b.dex_name && a.member == b.member && text_less(a.matched, b.matched)
}

/// Whether one hit does not come behind another.
pub open spec fn hit_order() -> spec_fn(HitView, HitView) -> bool {
    |a: HitView, b: HitView| !hit_less(b, a)
}

/// Whether `sorted` holds the hits `found` in ascending order.
pub open spec fn sorts(found: Seq<HitView>, sorted: Seq<HitView>) -> bool {
    &&& sorted.to_multiset() == found.to_multiset()
    &&& forall|i: int, j: int|
        0 <= i < j < sorted.len() ==> !hit_less(#[trigger] sorted[j], #[trigger] sorted[i])
}

proof fn lemma_hit_order(a: HitView, b: HitView)
    ensures
        hit_less(a, b) ==> !hit_less(b, a) && a != b,
        a != b ==> hit_less(a, b) || hit_less(b, a),
{
    lemma_text_order(a.dex_name, b.dex_name);
    lemma_text_order(b.dex_name, a.dex_name);
    lemma_text_order(a.member, b.member);
    lemma_text_order(b.member, a.member);
    lemma_text_order(a.matched, b.matched);
    lemma_text_order(b.matched, a.matched);
    if a.dex_name == b.dex_name && a.member == b.member && a.matched == b.matched {
        assert(a =~= b);
    }
}

proof fn lemma_hit_transitive(a: HitView, b: HitView, c: HitView)
    requires
        hit_less(a, b),
        hit_less(b, c),
    ensures
        hit_less(a, c),
{
    if text_less(a.dex_name, b.dex_name) && text_less(b.dex_name, c.dex_name) {
        lemma_text_transitive(a.dex_name, b.dex_name, c.dex_name);
    }
    if text_less(a.member, b.member) && text_less(b.member, c.member) {
        lemma_text_transitive(a.member, b.member, c.member);
    }
    if text_less(a.matched, b.matched) && text_less(b.matched, c.matched) {
        lemma_text_transitive(a.matched, b.matched, c.matched);
    }
}

proof fn lemma_hits_are_ordered()
    ensures
        vstd::relations::total_ordering(hit_order()),
{
    let leq = hit_order();
    assert forall|a: HitView| #[trigger] leq(a, a) by {
        lemma_hit_order(a, a);
    }
    assert forall|a: HitView, b: HitView| #[trigger] leq(a, b) && #[trigger] leq(b, a) implies a
        == b by {
        lemma_hit_order(a, b);
    }
    assert forall|a: HitView, b: HitView, c: HitView| #[trigger]
        leq(a, b) && #[trigger] leq(b, c) implies leq(a, c) by {
        lemma_hit_order(a, b);
        lemma_hit_order(b, c);
        lemma_hit_order(a, c);
        if hit_less(c, a) {
            if a == b {
            } else {
                if b == c {
                } else {
                    lemma_hit_transitive(a, b, c);
                }
            }
        }
    }
    assert forall|a: HitView, b: HitView| #[trigger] leq(a, b) || #[trigger] leq(b, a) by {
        lemma_hit_order(a, b);
    }
}

/// The order is total, so there is only one sorted list of the same hits: how it was sorted
/// cannot be seen in what is printed.
pub proof fn law_sorted_hits_are_unique(found: Seq<HitView>, one: Seq<HitView>, other: Seq<HitView>)
    requires
        sorts(found, one),
        sorts(found, other),
    ensures
        one == other,
{
    lemma_hits_are_ordered();
    vstd::seq_lib::lemma_sorted_unique(one, other, hit_order());
}

impl ReferenceHit {
    /// The line that is printed for this hit.
    pub fn render(&self) -> (line: String)
        ensures
            line@ == hit_text(self@),
    {
        let mut line = String::new();
        line.push_str(self.dex_name.as_str());
        line.push_str(" | ");
        line.push_str(self.member.as_str());
        line.push_str(" | matched=(");
        line.push_str(self.matched.as_str());
        line.push(')');
        assert(line@ =~= hit_text(self@));
        line
    }
}

/// The order of two hits, as sorting asks for it.
fn sort_order(left: &ReferenceHit, right: &ReferenceHit) -> (order: std::cmp::Ordering)
    ensures
        match order {
            std::cmp::Ordering::Less => hit_less(left@, right@),
            std::cmp::Ordering::Greater => hit_less(right@, left@),
            std::cmp::Ordering::Equal => left@ == right@,
        },
{
    match order_text(left.dex_name.as_str(), right.dex_name.as_str()) {
        Order::Before => {
            return std::cmp::Ordering::Less;
        },
        Order::After => {
            return std::cmp::Ordering::Greater;
        },
        Order::Same => {},
    }
    match order_text(left.member.as_str(), right.member.as_str()) {
        Order::Before => {
            return std::cmp::Ordering::Less;
        },
        Order::After => {
            return std::cmp::Ordering::Greater;
        },
        Order::Same => {},
    }
    match order_text(left.matched.as_str(), right.matched.as_str()) {
        Order::Before => std::cmp::Ordering::Less,
        Order::After => std::cmp::Ordering::Greater,
        Order::Same => std::cmp::Ordering::Equal,
    }
}

/// `rayon`'s `par_sort_unstable_by` with the order of hits.
///
/// The list holds the same hits afterwards, in ascending order.
#[verifier::external_body]
fn par_sort_hits(hits: &mut Vec<ReferenceHit>)
    ensures
        sorts(hit_views(old(hits)@), hit_views(final(hits)@)),
{
    hits.par_sort_unstable_by(|left, right| sort_order(left, right));
}

/// Sorts hits into the order they are printed in.
///
/// Equal hits are identical lines, so an unstable sort prints what a stable one would.
pub fn sort_hits(hits: Vec<ReferenceHit>) -> (sorted: Vec<ReferenceHit>)
    ensures
        sorts(hit_views(hits@), hit_views(sorted@)),
{
    let mut sorted = hits;
    par_sort_hits(&mut sorted);
    sorted
}

/// The hits that rows of one DEX are.
pub open spec fn hits_in(dex_name: Seq<char>, rows: Seq<RowView>) -> Seq<HitView> {
    rows.map_values(
        |row: RowView| HitView { dex_name, member: row.member, matched: row.matched },
    )
}

/// The hits of each logical DEX file of an entry, by position.
pub open spec fn logical_hits(list: Seq<LogicalView>, query: QueryView) -> spec_fn(int) -> Result<
    Seq<HitView>,
    Error,
> {
    |k: int|
        match references_of(list[k].data, query) {
            Err(error) => Err(error),
            Ok(rows) => Ok(hits_in(list[k].name, rows)),
        }
}

/// The hits of an entry, given what inflating it gave.
pub open spec fn entry_hits(name: Seq<char>, data: Result<Seq<u8>, Error>, query: QueryView) -> Result<
    Seq<HitView>,
    Error,
> {
    match data {
        Err(error) => Err(error),
        Ok(data) => match logical_of(name, data) {
            Err(error) => Err(error),
            Ok(list) => match collect(list.len() as int, logical_hits(list, query)) {
                Err(error) => Err(error),
                Ok(parts) => Ok(joined(parts)),
            },
        },
    }
}

/// Whether `outcome` are the hits of an entry, found in the whole entry.
pub open spec fn hits_whole(
    bytes: Seq<u8>,
    entry: ZipEntry,
    max_inflated: usize,
    query: QueryView,
    outcome: Result<Seq<HitView>, Error>,
) -> bool {
    exists|data: Result<Seq<u8>, Error>| #[trigger]
        inflates_to(bytes, entry, max_inflated, data) && outcome == entry_hits(
            entry.name@,
            data,
            query,
        )
}

/// Whether `outcome` are the hits of an entry, once its probe gave `probe`: none when the prefix
/// shows that it holds no target.
pub open spec fn hits_probed(
    bytes: Seq<u8>,
    entry: ZipEntry,
    max_inflated: usize,
    query: QueryView,
    probe: Result<Option<Seq<u8>>, Error>,
    outcome: Result<Seq<HitView>, Error>,
) -> bool {
    match probe {
        Err(error) => outcome == Err::<Seq<HitView>, Error>(error),
        Ok(None) => hits_whole(bytes, entry, max_inflated, query, outcome),
        Ok(Some(prefix)) => if prefix_targets(prefix, query) == Some(false) {
            outcome == Ok::<Seq<HitView>, Error>(Seq::empty())
        } else {
            hits_whole(bytes, entry, max_inflated, query, outcome)
        },
    }
}

/// Whether `outcome` are the hits of an entry under an archive-wide policy, and `after` the
/// policy afterwards. Only a query that names one class exactly is worth a probe.
pub open spec fn hits_entry(
    bytes: Seq<u8>,
    entry: ZipEntry,
    max_inflated: usize,
    query: QueryView,
    policy: PrefixPolicy,
    outcome: Result<Seq<HitView>, Error>,
    after: PrefixPolicy,
) -> bool {
    if named_class(query) is None {
        hits_whole(bytes, entry, max_inflated, query, outcome) && after == policy
    } else {
        exists|probe: Result<Option<Seq<u8>>, Error>| #[trigger]
            probes(bytes, entry, max_inflated, policy, probe, after) && hits_probed(
                bytes,
                entry,
                max_inflated,
                query,
                probe,
                outcome,
            )
    }
}

/// The outcome of a call that returns hits, with the hits as views.
pub open spec fn hits_outcome(result: Result<Vec<ReferenceHit>, Error>) -> Result<
    Seq<HitView>,
    Error,
> {
    match result {
        Ok(hits) => Ok(hit_views(hits@)),
        Err(error) => Err(error),
    }
}

/// Appends the hits that rows of one DEX are.
fn push_hits(hits: &mut Vec<ReferenceHit>, dex_name: &String, rows: Vec<ReferenceRow>)
    ensures
        hit_views(final(hits)@) == hit_views(old(hits)@) + hits_in(dex_name@, row_views(rows@)),
{
    let ghost start = hit_views(hits@);
    let ghost added = hits_in(dex_name@, row_views(rows@));
    assert(start + added.take(0) =~= start);
    for i in 0..rows.len()
        invariant
            added == hits_in(dex_name@, row_views(rows@)),
            hit_views(hits@) == start + added.take(i as int),
    {
        let ghost before = hits@;
        let row: &ReferenceRow = &rows[i];
        let hit = ReferenceHit {
            dex_name: dex_name.clone(),
            member: row.member.clone(),
            matched: row.matched.clone(),
        };
        hits.push(hit);
        proof {
            assert(hit@ =~= added[i as int]);
            assert(hit_views(hits@) =~= hit_views(before).push(added[i as int]));
            assert((start + added.take(i as int)).push(added[i as int]) =~= start + added.take(i + 1));
        }
    }
    assert(added.take(added.len() as int) =~= added);
}

/// The hits of an entry with the bytes `data`: those of each of its logical DEX files.
pub fn hits_of_data(name: &str, data: &[u8], query: &Query) -> (hits: Result<
    Vec<ReferenceHit>,
    Error,
>)
    ensures
        hits_outcome(hits) == entry_hits(name@, Ok(data@), query@),
{
    let list = match logical_dexes(name, data) {
        Ok(list) => list,
        Err(error) => {
            return Err(error);
        },
    };
    let ghost views = logical_views(list@);
    let ghost f = logical_hits(views, query@);
    let count: usize = list.len();
    let mut hits: Vec<ReferenceHit> = Vec::new();
    let mut k: usize = 0;
    assert(hit_views(hits@) =~= joined(Seq::<Seq<HitView>>::empty()));
    while k < count
        invariant
            count == list@.len(),
            views == logical_views(list@),
            logical_of(name@, data@) == Ok::<Seq<LogicalView>, Error>(views),
            f == logical_hits(views, query@),
            k <= count,
            collect(k as int, f) matches Ok(parts) && hit_views(hits@) == joined(parts),
        decreases count - k,
    {
        let logical: &LogicalDex = &list[k];
        assert(views[k as int] == logical@);
        let rows = match find_references(logical.data.as_slice(), query) {
            Ok(rows) => rows,
            Err(error) => {
                proof {
                    lemma_collect_fails(count as int, k as int, f);
                }
                return Err(error);
            },
        };
        proof {
            let parts = collect(k as int, f)->Ok_0;
            let part = hits_in(logical.name@, row_views(rows@));
            assert(parts.push(part).drop_last() =~= parts);
        }
        push_hits(&mut hits, &logical.name, rows);
        k = k + 1;
    }
    Ok(hits)
}

/// The hits of an entry, found in the whole entry.
fn whole_hits<S: BytesSource + ?Sized>(
    source: &S,
    entry: &ZipEntry,
    max_inflated: usize,
    query: &Query,
) -> (hits: Result<Vec<ReferenceHit>, Error>)
    ensures
        hits_whole(source.bytes(), *entry, max_inflated, query@, hits_outcome(hits)),
{
    let data = inflate_entry(source, entry, max_inflated);
    let ghost read = bytes_outcome(data);
    assert(inflates_to(source.bytes(), *entry, max_inflated, read));
    match data {
        Ok(data) => hits_of_data(entry.name.as_str(), data.as_slice(), query),
        Err(error) => Err(error),
    }
}

/// The hits of one entry.
///
/// A query that names one class is the case where a pre-check pays: the class usually lives in
/// one entry of dozens, so every other entry can be skipped after a prefix read instead of an
/// inflate and a full scan. Wide queries match almost every entry, where the same prefix read is
/// pure overhead, so they are not pre-checked at all.
pub fn hits_of_entry<S: BytesSource + ?Sized>(
    source: &S,
    entry: &ZipEntry,
    max_inflated: usize,
    query: &Query,
    policy: &mut PrefixPolicy,
) -> (hits: Result<Vec<ReferenceHit>, Error>)
    ensures
        hits_entry(
            source.bytes(),
            *entry,
            max_inflated,
            query@,
            *old(policy),
            hits_outcome(hits),
            *final(policy),
        ),
{
    if !query.names_one_class() {
        return whole_hits(source, entry, max_inflated, query);
    }
    let ghost bytes = source.bytes();
    let probe = prefix_probe(source, entry, max_inflated, policy);
    let ghost probe_read = probe_outcome(probe);
    assert(probes(bytes, *entry, max_inflated, *old(policy), probe_read, *policy));
    match probe {
        Ok(Some(prefix)) => match prefix_has_targets(prefix.as_slice(), query) {
            Ok(Some(false)) => {
                let hits: Vec<ReferenceHit> = Vec::new();
                assert(hit_views(hits@) =~= Seq::empty());
                return Ok(hits);
            },
            _ => {},
        },
        Ok(None) => {},
        Err(error) => {
            return Err(error);
        },
    }
    whole_hits(source, entry, max_inflated, query)
}

/// A skipped entry has no hits: whatever the policy, an entry whose bytes can be scanned has the
/// hits that its bytes have.
pub proof fn law_policy_does_not_change_the_hits(
    bytes: Seq<u8>,
    entry: ZipEntry,
    max_inflated: usize,
    query: QueryView,
    policy: PrefixPolicy,
    outcome: Result<Seq<HitView>, Error>,
    after: PrefixPolicy,
    data: Seq<u8>,
)
    requires
        hits_entry(bytes, entry, max_inflated, query, policy, outcome, after),
        inflates_to(bytes, entry, max_inflated, Ok::<Seq<u8>, Error>(data)),
        entry_hits(entry.name@, Ok(data), query) is Ok,
    ensures
        outcome == entry_hits(entry.name@, Ok(data), query),
{
    if named_class(query) is Some {
        let probe = choose|probe: Result<Option<Seq<u8>>, Error>| #[trigger]
            probes(bytes, entry, max_inflated, policy, probe, after) && hits_probed(
                bytes,
                entry,
                max_inflated,
                query,
                probe,
                outcome,
            );
        law_probe_reads_a_prefix(bytes, entry, max_inflated, policy, probe, after, data);
        if probe->Ok_0 is Some && prefix_targets(probe->Ok_0->0, query) == Some(false) {
            let prefix = probe->Ok_0->0;
            let name = entry.name@;
            let list = logical_of(name, data)->Ok_0;
            let f = logical_hits(list, query);
            assert(list =~= seq![LogicalView { name, data }]);
            lemma_collect_succeeds(1, f);
            let parts = collect(1, f)->Ok_0;
            assert(f(0) == Ok::<Seq<HitView>, Error>(parts[0]));
            law_skipped_file_has_no_rows(prefix, data, query);
            assert(hits_in(name, Seq::<RowView>::empty()) =~= Seq::empty());
            assert(parts.drop_last() =~= Seq::empty());
            assert(joined(parts.drop_last()) =~= Seq::empty());
            assert(joined(parts) =~= Seq::empty());
        }
    }
}

/// Whether `outcomes` are those of the entries in directory order, up to the first that fails.
pub open spec fn scours(
    bytes: Seq<u8>,
    entries: Seq<ZipEntry>,
    max_inflated: usize,
    query: QueryView,
    outcomes: Seq<Result<Seq<HitView>, Error>>,
    policies: Seq<PrefixPolicy>,
) -> bool {
    &&& outcomes.len() <= entries.len()
    &&& policies.len() == outcomes.len() + 1
    &&& policies[0] == None::<bool>
    &&& forall|i: int|
        0 <= i < outcomes.len() ==> hits_entry(
            bytes,
            entries[i],
            max_inflated,
            query,
            policies[i],
            #[trigger] outcomes[i],
            policies[i + 1],
        )
    &&& forall|i: int| 0 <= i < outcomes.len() - 1 ==> (#[trigger] outcomes[i]) is Ok
}

/// What was found in the entries that were walked.
pub open spec fn found_hits(outcomes: Seq<Result<Seq<HitView>, Error>>) -> Seq<HitView> {
    joined(outcomes.map_values(|outcome: Result<Seq<HitView>, Error>| outcome->Ok_0))
}

/// Whether `result` is what a walk with the given outcomes comes to: the first failure, or all
/// that was found.
pub open spec fn gives_hits(
    entries: Seq<ZipEntry>,
    outcomes: Seq<Result<Seq<HitView>, Error>>,
    result: Result<Seq<HitView>, Error>,
) -> bool {
    match result {
        Err(error) => outcomes.len() > 0 && outcomes.last() == Err::<Seq<HitView>, Error>(error),
        Ok(hits) => outcomes.len() == entries.len() && (outcomes.len() > 0 ==> outcomes.last() is Ok)
            && hits == found_hits(outcomes),
    }
}

/// Whether `result` are the hits of the given entries.
pub open spec fn hits_entries(
    bytes: Seq<u8>,
    entries: Seq<ZipEntry>,
    max_inflated: usize,
    query: QueryView,
    result: Result<Seq<HitView>, Error>,
) -> bool {
    exists|
            outcomes: Seq<Result<Seq<HitView>, Error>>,
        policies: Seq<PrefixPolicy>,
    | #[trigger]
        scours(bytes, entries, max_inflated, query, outcomes, policies) && gives_hits(
            entries,
            outcomes,
            result,
        )
}

/// Whether `result` are the hits of an archive.
pub open spec fn hits_archive(
    bytes: Seq<u8>,
    threads: usize,
    max_inflated: usize,
    query: QueryView,
    result: Result<Seq<HitView>, Error>,
) -> bool {
    match (threads, dex_entries(bytes)) {
        (0, _) => result == Err::<Seq<HitView>, Error>(Error::NoWorkers),
        (_, Err(error)) => result == Err::<Seq<HitView>, Error>(error),
        (_, Ok(views)) => exists|entries: Seq<ZipEntry>| #[trigger]
            entry_views(entries) == views && hits_entries(
                bytes,
                entries,
                max_inflated,
                query,
                result,
            ),
    }
}

proof fn lemma_scour_grows(
    bytes: Seq<u8>,
    entries: Seq<ZipEntry>,
    max_inflated: usize,
    query: QueryView,
    outcomes: Seq<Result<Seq<HitView>, Error>>,
    policies: Seq<PrefixPolicy>,
    outcome: Result<Seq<HitView>, Error>,
    policy: PrefixPolicy,
)
    requires
        scours(bytes, entries, max_inflated, query, outcomes, policies),
        outcomes.len() < entries.len(),
        outcomes.len() > 0 ==> outcomes.last() is Ok,
        hits_entry(
            bytes,
            entries[outcomes.len() as int],
            max_inflated,
            query,
            policies.last(),
            outcome,
            policy,
        ),
    ensures
        scours(
            bytes,
            entries,
            max_inflated,
            query,
            outcomes.push(outcome),
            policies.push(policy),
        ),
{
    let more = outcomes.push(outcome);
    let next = policies.push(policy);
    assert forall|k: int| 0 <= k < more.len() implies hits_entry(
        bytes,
        entries[k],
        max_inflated,
        query,
        next[k],
        #[trigger] more[k],
        next[k + 1],
    ) by {
        if k < outcomes.len() {
            assert(more[k] == outcomes[k]);
        }
    }
}

proof fn lemma_found_grows(outcomes: Seq<Result<Seq<HitView>, Error>>, list: Seq<HitView>)
    ensures
        found_hits(outcomes.push(Ok(list))) == found_hits(outcomes) + list,
{
    let ok = |outcome: Result<Seq<HitView>, Error>| outcome->Ok_0;
    let more = outcomes.push(Ok::<Seq<HitView>, Error>(list));
    assert(more.map_values(ok).drop_last() =~= outcomes.map_values(ok));
    assert(more.map_values(ok).last() == list);
}

/// The hits of the given entries, one entry behind the other.
pub fn hits_in_entries<S: BytesSource + ?Sized>(
    source: &S,
    entries: &Vec<ZipEntry>,
    max_inflated: usize,
    query: &Query,
) -> (hits: Result<Vec<ReferenceHit>, Error>)
    ensures
        hits_entries(source.bytes(), entries@, max_inflated, query@, hits_outcome(hits)),
{
    let ghost bytes = source.bytes();
    let mut policy: PrefixPolicy = None;
    let mut found: Vec<ReferenceHit> = Vec::new();
    let ghost mut outcomes: Seq<Result<Seq<HitView>, Error>> = Seq::empty();
    let ghost mut policies: Seq<PrefixPolicy> = seq![None];
    assert(hit_views(found@) =~= found_hits(outcomes)) by {
        assert(outcomes.map_values(|outcome: Result<Seq<HitView>, Error>| outcome->Ok_0)
            =~= Seq::empty());
    }
    let mut i: usize = 0;
    while i < entries.len()
        invariant
            bytes == source.bytes(),
            i <= entries@.len(),
            outcomes.len() == i,
            scours(bytes, entries@, max_inflated, query@, outcomes, policies),
            i > 0 ==> outcomes.last() is Ok,
            policies.last() == policy,
            hit_views(found@) == found_hits(outcomes),
        decreases entries@.len() - i,
    {
        let ghost old_outcomes = outcomes;
        let outcome = hits_of_entry(source, &entries[i], max_inflated, query, &mut policy);
        let ghost read = hits_outcome(outcome);
        proof {
            lemma_scour_grows(
                bytes,
                entries@,
                max_inflated,
                query@,
                outcomes,
                policies,
                read,
                policy,
            );
            outcomes = outcomes.push(read);
            policies = policies.push(policy);
        }
        match outcome {
            Ok(list) => {
                let mut list = list;
                let ghost start = found@;
                let ghost tail = list@;
                found.append(&mut list);
                proof {
                    lemma_found_grows(old_outcomes, hit_views(tail));
                    assert(found@ =~= start + tail);
                    assert(hit_views(found@) =~= hit_views(start) + hit_views(tail));
                }
            },
            Err(error) => {
                assert(gives_hits(entries@, outcomes, Err::<Seq<HitView>, Error>(error)));
                return Err(error);
            },
        }
        i = i + 1;
    }
    assert(gives_hits(entries@, outcomes, Ok::<Seq<HitView>, Error>(hit_views(found@))));
    Ok(found)
}

/// Every reference hit for `query`, in central-directory order of the entries, and in the order of
/// the class table within one DEX. How many workers there are does not show.
///
/// The hits are unsorted: the caller sorts them, which is what decides the printed order.
pub fn find_reference_hits<S: BytesSource + ?Sized>(
    source: &S,
    query: &Query,
    threads: usize,
    max_inflated: usize,
) -> (hits: Result<Vec<ReferenceHit>, Error>)
    ensures
        hits_archive(source.bytes(), threads, max_inflated, query@, hits_outcome(hits)),
{
    if threads == 0 {
        return Err(Error::NoWorkers);
    }
    match parse_dex_entries(source) {
        Ok(entries) => {
            assert(dex_entries(source.bytes()) == Ok::<Seq<EntryView>, Error>(
                entry_views(entries@),
            ));
            hits_in_entries(source, &entries, max_inflated, query)
        },
        Err(error) => Err(error),
    }
}

/// The hits of the first `n` entries, from the bytes they inflate to.
pub open spec fn hits_by(
    entries: Seq<ZipEntry>,
    datas: Seq<Seq<u8>>,
    query: QueryView,
    n: int,
) -> Seq<HitView>
    decreases n,
{
    if n <= 0 {
        Seq::empty()
    } else {
        hits_by(entries, datas, query, n - 1) + entry_hits(
            entries[n - 1].name@,
            Ok(datas[n - 1]),
            query,
        )->Ok_0
    }
}

/// Whether every entry inflates to the given bytes, and those can be scanned.
pub open spec fn scannable_entries(
    bytes: Seq<u8>,
    entries: Seq<ZipEntry>,
    max_inflated: usize,
    query: QueryView,
    datas: Seq<Seq<u8>>,
) -> bool {
    &&& datas.len() == entries.len()
    &&& forall|i: int|
        0 <= i < datas.len() ==> inflates_to(
            bytes,
            entries[i],
            max_inflated,
            Ok::<Seq<u8>, Error>(#[trigger] datas[i]),
        ) && entry_hits(
            entries[i].name@,
            Ok(datas[i]),
            query,
        ) is Ok
}

proof fn lemma_scour_is_that_of_the_bytes(
    bytes: Seq<u8>,
    entries: Seq<ZipEntry>,
    max_inflated: usize,
    query: QueryView,
    outcomes: Seq<Result<Seq<HitView>, Error>>,
    policies: Seq<PrefixPolicy>,
    datas: Seq<Seq<u8>>,
    n: int,
)
    requires
        scours(bytes, entries, max_inflated, query, outcomes, policies),
        scannable_entries(bytes, entries, max_inflated, query, datas),
        0 <= n <= outcomes.len(),
    ensures
        n > 0 ==> outcomes[n - 1] is Ok,
        found_hits(outcomes.take(n)) == hits_by(entries, datas, query, n),
    decreases n,
{
    let ok = |outcome: Result<Seq<HitView>, Error>| outcome->Ok_0;
    if n == 0 {
        assert(outcomes.take(0).map_values(ok) =~= Seq::empty());
    } else {
        lemma_scour_is_that_of_the_bytes(
            bytes,
            entries,
            max_inflated,
            query,
            outcomes,
            policies,
            datas,
            n - 1,
        );
        let data = datas[n - 1];
        let outcome = outcomes[n - 1];
        law_policy_does_not_change_the_hits(
            bytes,
            entries[n - 1],
            max_inflated,
            query,
            policies[n - 1],
            outcome,
            policies[n],
            data,
        );
        lemma_found_grows(outcomes.take(n - 1), outcome->Ok_0);
        assert(outcomes.take(n) =~= outcomes.take(n - 1).push(outcome));
    }
}

/// The hits of an archive whose entries all inflate and can be scanned are those of the bytes
/// they inflate to, one entry behind the other in central-directory order, whichever of them were
/// skipped after a prefix: no walk gives others.
pub proof fn law_hits_are_those_of_the_bytes(
    bytes: Seq<u8>,
    entries: Seq<ZipEntry>,
    max_inflated: usize,
    query: QueryView,
    datas: Seq<Seq<u8>>,
    result: Result<Seq<HitView>, Error>,
)
    requires
        hits_entries(bytes, entries, max_inflated, query, result),
        scannable_entries(bytes, entries, max_inflated, query, datas),
    ensures
        result == Ok::<Seq<HitView>, Error>(
            hits_by(entries, datas, query, entries.len() as int),
        ),
{
    let (outcomes, policies) = choose|
        outcomes: Seq<Result<Seq<HitView>, Error>>,
        policies: Seq<PrefixPolicy>,
    | #[trigger]
        scours(bytes, entries, max_inflated, query, outcomes, policies) && gives_hits(
            entries,
            outcomes,
            result,
        );
    lemma_scour_is_that_of_the_bytes(
        bytes,
        entries,
        max_inflated,
        query,
        outcomes,
        policies,
        datas,
        outcomes.len() as int,
    );
    assert(outcomes.take(outcomes.len() as int) =~= outcomes);
}

/// Whether a hit is a row of a logical DEX file, under the name of that file.
pub open spec fn is_row_of(file: LogicalView, query: QueryView, hit: HitView) -> bool {
    &&& hit.dex_name == file.name
    &&& references_of(file.data, query) is Ok
    &&& exists|i: int|
        0 <= i < references_of(file.data, query)->Ok_0.len() && hit.member == (
        #[trigger] references_of(file.data, query)->Ok_0[i]).member && hit.matched == references_of(
            file.data,
            query,
        )->Ok_0[i].matched
}

/// The hits of an entry are the rows of its logical DEX files, each under the name of its file.
pub proof fn law_hits_are_rows_of_a_file(
    name: Seq<char>,
    data: Seq<u8>,
    query: QueryView,
    hits: Seq<HitView>,
    at: int,
)
    requires
        entry_hits(name, Ok(data), query) == Ok::<Seq<HitView>, Error>(hits),
        0 <= at < hits.len(),
    ensures
        logical_of(name, data) matches Ok(list) && exists|k: int|
            0 <= k < list.len() && is_row_of(#[trigger] list[k], query, hits[at]),
{
    let list = logical_of(name, data)->Ok_0;
    let f = logical_hits(list, query);
    lemma_collect_succeeds(list.len() as int, f);
    let parts = collect(list.len() as int, f)->Ok_0;
    lemma_joined_comes_from(parts, at);
    let k = choose|k: int| 0 <= k < parts.len() && (#[trigger] parts[k]).contains(hits[at]);
    assert(f(k) == Ok::<Seq<HitView>, Error>(parts[k]));
    let rows = references_of(list[k].data, query)->Ok_0;
    let i = choose|i: int| 0 <= i < parts[k].len() && parts[k][i] == hits[at];
    assert(parts[k][i] == (HitView {
        dex_name: list[k].name,
        member: rows[i].member,
        matched: rows[i].matched,
    }));
    assert(is_row_of(list[k], query, hits[at]));
}

/// Every row of every logical DEX file of an entry is a hit of the entry.
pub proof fn law_every_row_is_a_hit(
    name: Seq<char>,
    data: Seq<u8>,
    query: QueryView,
    k: int,
    i: int,
)
    requires
        entry_hits(name, Ok(data), query) is Ok,
        0 <= k < logical_of(name, data)->Ok_0.len(),
        0 <= i < references_of(logical_of(name, data)->Ok_0[k].data, query)->Ok_0.len(),
    ensures
        ({
            let file = logical_of(name, data)->Ok_0[k];
            let row = references_of(file.data, query)->Ok_0[i];
            entry_hits(name, Ok(data), query)->Ok_0.contains(
                (HitView { dex_name: file.name, member: row.member, matched: row.matched }),
            )
        }),
{
    let list = logical_of(name, data)->Ok_0;
    let f = logical_hits(list, query);
    lemma_collect_succeeds(list.len() as int, f);
    let parts = collect(list.len() as int, f)->Ok_0;
    assert(f(k) == Ok::<Seq<HitView>, Error>(parts[k]));
    lemma_joined_has(parts, k, i);
}

/// Hits are ordered by their file first, by the member where the file is the same, and by what
/// was matched where the member is the same too.
pub proof fn law_hits_are_ordered_by_file(a: HitView, b: HitView)
    ensures
        text_less(a.dex_name, b.dex_name) ==> hit_less(a, b) && !hit_less(b, a),
        a.dex_name == b.dex_name && text_less(a.member, b.member) ==> hit_less(a, b) && !hit_less(
            b,
            a,
        ),
        a.dex_name == b.dex_name && a.member == b.member && text_less(a.matched, b.matched)
            ==> hit_less(a, b) && !hit_less(b, a),
        hit_less(a, b) ==> a != b,
{
    lemma_text_order(a.dex_name, b.dex_name);
    lemma_text_order(b.dex_name, a.dex_name);
    lemma_text_order(a.member, b.member);
    lemma_text_order(b.member, a.member);
    lemma_text_order(a.matched, b.matched);
    lemma_text_order(b.matched, a.matched);
}

/// However the line of a hit is cut at its bars, the parts are the file, the member and what was
/// matched.
pub proof fn law_hit_line_reads_back(
    hit: HitView,
    name: Seq<char>,
    member: Seq<char>,
    matched: Seq<char>,
)
    requires
        hit_text(hit) == name + " | "@ + member + " | matched=("@ + matched + seq![')'],
        !hit.dex_name.contains(' '),
        !hit.member.contains(' '),
        !name.contains(' '),
        !member.contains(' '),
    ensures
        name == hit.dex_name,
        member == hit.member,
        matched == hit.matched,
{
    reveal_strlit(" | ");
    reveal_strlit(" | matched=(");
    let own = hit.member + (" | matched=("@ + (hit.matched + seq![')']));
    let given = member + (" | matched=("@ + (matched + seq![')']));
    assert(hit_text(hit) =~= hit.dex_name + " | "@ + own);
    assert(hit_text(hit) =~= name + " | "@ + given);
    lemma_cut(hit.dex_name, own, name, given, " | "@);
    assert(own =~= hit.member + " | matched=("@ + (hit.matched + seq![')']));
    assert(given =~= member + " | matched=("@ + (matched + seq![')']));
    lemma_cut(hit.member, hit.matched + seq![')'], member, matched + seq![')'], " | matched=("@);
    assert((hit.matched + seq![')']).drop_last() =~= hit.matched);
    assert((matched + seq![')']).drop_last() =~= matched);
}

} // verus!
