//! What to keep when the disk budget is reached.
//!
//! Oldest first, with one exception. Ranking captures by detector score means ranking by
//! how much the software understands a recording, and the purpose here is finding signals
//! nobody has catalogued. Age is a poorer measure of value but an honest one. The exception
//! is a capture taken by hand: someone pressing Export has made a judgement the software is
//! not in a position to overrule, and those are kept until nothing else remains.
//!
//! A capture is two files: the audio, and a JSON sidecar. Sidecars are never deleted.
//! Evicting the audio marks the record `audio_evicted` and leaves it in place, so the
//! observation survives even when the recording cannot.
use crate::config::is_text;
use crate::order::{
    is_order, left_after, lemma_left, lemma_order_complete, lemma_order_exists, lemma_sum_take,
    order_of, precedes, stable_order, sum_of,
};
use vstd::prelude::*;
use vstd::string::*;

verus! {

/// One stored capture, as the retention policy sees it.
#[derive(Debug)]
pub struct Record {
    pub audio: String,
    pub sidecar: String,
    pub bytes: u64,
    /// When the audio was last written, in nanoseconds since 1970.
    pub modified: i64,
    /// Taken by hand rather than by a detector. Kept while anything else remains.
    pub manual: bool,
}

/// How much to keep.
#[derive(Clone, Copy, Debug, PartialEq, Eq, Structural)]
pub struct Policy {
    pub budget_bytes: u64,
}

/// A budget in mebibytes, as bytes.
pub fn budget_bytes(mebibytes: u64) -> (r: u64)
    ensures
        r == if mebibytes * 1_048_576 > u64::MAX {
            u64::MAX as int
        } else {
            mebibytes * 1_048_576
        },
{
    if mebibytes > 17_592_186_044_415 {
        u64::MAX
    } else {
        mebibytes * 1_048_576
    }
}

/// The sizes of some captures.
pub open spec fn sizes_of(records: Seq<Record>) -> Seq<int> {
    records.map_values(|r: Record| r.bytes as int)
}

/// The bytes of some captures together.
pub open spec fn bytes_of(records: Seq<Record>) -> int {
    sum_of(sizes_of(records))
}

/// What captures are put in order by: those taken by hand after all the others, and each
/// kind oldest first.
pub open spec fn seniority(r: Record) -> int {
    r.modified + if r.manual {
        0x1_0000_0000_0000_0000int
    } else {
        0
    }
}

pub open spec fn seniorities(records: Seq<Record>) -> Seq<i128> {
    records.map_values(|r: Record| seniority(r) as i128)
}

/// The order in which captures are let go.
pub open spec fn eviction_order(records: Seq<Record>) -> Seq<usize> {
    order_of(seniorities(records))
}

/// The bytes left once the first `n` captures to go are gone.
pub open spec fn bytes_after(records: Seq<Record>, n: int) -> int {
    left_after(sizes_of(records), eviction_order(records), n)
}

/// `doomed` are the captures to let go: as few as it takes, from the front of the order,
/// for the rest to fit the budget. A budget of nothing is no budget.
pub open spec fn is_doomed(records: Seq<Record>, budget: int, doomed: Seq<usize>) -> bool {
    let order = eviction_order(records);
    let n = doomed.len() as int;
    if budget == 0 {
        n == 0
    } else {
        &&& n <= order.len()
        &&& doomed == order.take(n)
        &&& bytes_after(records, n) <= budget
        &&& n > 0 ==> bytes_after(records, n - 1) > budget
    }
}

/// Total bytes of the audio held.
pub fn audio_bytes(records: &[Record]) -> (r: u64)
    requires
        bytes_of(records@) <= u64::MAX,
    ensures
        r == bytes_of(records@),
{
    let ghost sizes = sizes_of(records@);
    let mut total: u64 = 0;
    let mut i: usize = 0;
    assert(sizes.take(0) =~= Seq::empty());
    while i < records.len()
        invariant
            sizes == sizes_of(records@),
            sum_of(sizes) <= u64::MAX,
            i <= records.len(),
            total == sum_of(sizes.take(i as int)),
        decreases records.len() - i,
    {
        proof {
            lemma_sum_take(sizes, i + 1);
        }
        total = total + records[i].bytes;
        i = i + 1;
    }
    assert(sizes.take(records.len() as int) =~= sizes);
    total
}

/// Indices of the records whose audio should be deleted, in the order to do it.
///
/// Oldest first. Captures taken by hand go last of all, but they do go, once nothing else
/// is left, because a budget that protected files without limit would not be a budget.
pub fn evictions(records: &[Record], policy: &Policy) -> (r: Vec<usize>)
    requires
        bytes_of(records@) <= u64::MAX,
    ensures
        is_doomed(records@, policy.budget_bytes as int, r@),
{
    let mut doomed: Vec<usize> = Vec::new();
    if policy.budget_bytes == 0 {
        return doomed;
    }
    let mut total: u64 = audio_bytes(records);
    let mut keys: Vec<i128> = Vec::with_capacity(records.len());
    let mut i: usize = 0;
    while i < records.len()
        invariant
            i <= records.len(),
            keys.len() == i,
            forall|k: int| 0 <= k < i ==> #[trigger] keys[k] == seniority(records@[k]),
        decreases records.len() - i,
    {
        let hand: i128 = if records[i].manual {
            0x1_0000_0000_0000_0000
        } else {
            0
        };
        keys.push(records[i].modified as i128 + hand);
        i = i + 1;
    }
    assert(keys@ =~= seniorities(records@));
    let order = stable_order(keys.as_slice());
    let ghost sizes = sizes_of(records@);
    proof {
        lemma_left(sizes, keys@, order@, order@.len() as int);
    }
    assert(doomed@ =~= order@.take(0));
    while total > policy.budget_bytes
        invariant
            sizes == sizes_of(records@),
            keys@ == seniorities(records@),
            is_order(keys@, order@),
            order@ == eviction_order(records@),
            order.len() == records.len(),
            left_after(sizes, order@, order@.len() as int) == 0,
            doomed.len() <= order.len(),
            doomed@ == order@.take(doomed.len() as int),
            total == left_after(sizes, order@, doomed.len() as int),
            doomed.len() > 0 ==> left_after(sizes, order@, doomed.len() - 1) > policy.budget_bytes,
        decreases order.len() - doomed.len(),
    {
        let n: usize = doomed.len();
        let next: usize = order[n];
        proof {
            lemma_left(sizes, keys@, order@, n as int);
            assert(order@.take(n + 1) =~= order@.take(n as int).push(next));
        }
        total = total - records[next].bytes;
        doomed.push(next);
    }
    doomed
}

/// After the evictions the rest fits the budget.
pub proof fn law_evictions_meet_the_budget(records: Seq<Record>, budget: int, doomed: Seq<usize>)
    requires
        budget > 0,
        is_doomed(records, budget, doomed),
    ensures
        bytes_after(records, doomed.len() as int) <= budget,
{
}

/// Nothing is let go while everything fits.
pub proof fn law_nothing_goes_within_the_budget(records: Seq<Record>, budget: int, doomed: Seq<usize>)
    requires
        records.len() <= usize::MAX,
        bytes_of(records) <= budget,
        is_doomed(records, budget, doomed),
    ensures
        doomed.len() == 0,
{
    if doomed.len() > 0 {
        lemma_order_exists(seniorities(records));
        lemma_left(
            sizes_of(records),
            seniorities(records),
            eviction_order(records),
            doomed.len() - 1,
        );
    }
}

/// A capture taken by hand goes only once every other capture has gone.
pub proof fn law_hand_taken_captures_go_last(
    records: Seq<Record>,
    budget: int,
    doomed: Seq<usize>,
    i: int,
    j: int,
)
    requires
        records.len() <= usize::MAX,
        is_doomed(records, budget, doomed),
        0 <= i < doomed.len(),
        records[doomed[i] as int].manual,
        0 <= j < records.len(),
        !records[j].manual,
    ensures
        exists|k: int| 0 <= k < i && #[trigger] doomed[k] == j,
{
    lemma_goes_before(records, budget, doomed, i, j);
}

/// Of two captures of the same kind the older goes first.
pub proof fn law_the_oldest_goes_first(
    records: Seq<Record>,
    budget: int,
    doomed: Seq<usize>,
    i: int,
    j: int,
)
    requires
        records.len() <= usize::MAX,
        is_doomed(records, budget, doomed),
        0 <= i < doomed.len(),
        0 <= j < records.len(),
        records[j].manual == records[doomed[i] as int].manual,
        records[j].modified < records[doomed[i] as int].modified,
    ensures
        exists|k: int| 0 <= k < i && #[trigger] doomed[k] == j,
{
    lemma_goes_before(records, budget, doomed, i, j);
}

proof fn lemma_goes_before(
    records: Seq<Record>,
    budget: int,
    doomed: Seq<usize>,
    i: int,
    j: int,
)
    requires
        records.len() <= usize::MAX,
        is_doomed(records, budget, doomed),
        0 <= i < doomed.len(),
        0 <= j < records.len(),
        seniority(records[j]) < seniority(records[doomed[i] as int]),
    ensures
        exists|k: int| 0 <= k < i && #[trigger] doomed[k] == j,
{
    let keys = seniorities(records);
    let order = eviction_order(records);
    lemma_order_exists(keys);
    lemma_order_complete(keys, order, j);
    let p = choose|p: int| 0 <= p < order.len() && #[trigger] order[p] == j;
    assert(doomed[i] == order[i]);
    if p > i {
        assert(precedes(keys, order[i] as int, order[p] as int));
    }
    assert(p != i);
    assert(doomed[p] == j);
}

/// The string that a JSON object holds under a name: none where the text is no JSON object,
/// or holds no string there.
pub uninterp spec fn json_string(text: Seq<char>, name: Seq<char>) -> Option<Seq<char>>;

/// The truth value that a JSON object holds under a name: none where the text is no JSON
/// object, or holds no truth value there.
pub uninterp spec fn json_flag(text: Seq<char>, name: Seq<char>) -> Option<bool>;

/// The text is JSON that can be read.
pub uninterp spec fn json_reads(text: Seq<char>) -> bool;

/// The text of a JSON object with a name set to true: none where the text is no JSON object.
pub uninterp spec fn json_with_true(text: Seq<char>, name: Seq<char>) -> Option<Seq<char>>;

/// `serde_json::from_str` into a `Value`, then `Value::get` and `Value::as_str`: the string
/// under a name of a JSON object. What they make of a text is a function of the text and
/// the name alone, and has the name [`json_string`].
#[verifier::external_body]
fn string_member(text: &str, name: &str) -> (r: Option<String>)
    ensures
        r is Some == json_string(text@, name@) is Some,
        r matches Some(s) ==> s@ == json_string(text@, name@)->Some_0,
{
    let value: serde_json::Value = serde_json::from_str(text).ok()?;
    value.get(name).and_then(|v| v.as_str()).map(|s| s.to_owned())
}

/// `serde_json::from_str` into a `Value`, then `Value::get` and `Value::as_bool`: the truth
/// value under a name of a JSON object. What they make of a text is a function of the text
/// and the name alone, and has the name [`json_flag`].
#[verifier::external_body]
fn flag_member(text: &str, name: &str) -> (r: Option<bool>)
    ensures
        r == json_flag(text@, name@),
{
    let value: serde_json::Value = serde_json::from_str(text).ok()?;
    value.get(name).and_then(|v| v.as_bool())
}

/// `serde_json::from_str` into a `Value`: whether a text is JSON that it can read. That is a
/// function of the text alone, and has the name [`json_reads`].
#[verifier::external_body]
fn can_read(text: &str) -> (r: bool)
    ensures
        r == json_reads(text@),
{
    serde_json::from_str::<serde_json::Value>(text).is_ok()
}

/// `serde_json::from_str` into a `Value`, `Value::as_object_mut`, `Map::insert` of `true` and
/// `serde_json::to_string_pretty`: a JSON object with one more member. The text that comes
/// out is a function of the text and the name alone, and has the name [`json_with_true`].
///
/// Wherever that text can itself be read, the name reads back as true, and under every other
/// name stands the string or the truth value that was there before, or none if there was
/// none. A string read from it was there before in any case. That it can always be read is
/// left unsaid: the text may hold a number so close to the largest that it does not survive
/// being printed and read again. Nor is anything said of members of other kinds.
#[verifier::external_body]
fn set_true(text: &str, name: &str) -> (r: Option<String>)
    ensures
        r is Some == json_with_true(text@, name@) is Some,
        r matches Some(s) ==> s@ == json_with_true(text@, name@)->Some_0,
        r matches Some(s) ==> forall|other: Seq<char>|
            other != name@ && #[trigger] json_string(s@, other) is Some ==> json_string(s@, other)
                == json_string(text@, other),
        r matches Some(s) ==> json_reads(s@) ==> json_flag(s@, name@) == Some(true),
        r matches Some(s) ==> json_reads(s@) ==> forall|other: Seq<char>|
            other != name@ ==> #[trigger] json_string(s@, other) == json_string(text@, other),
        r matches Some(s) ==> json_reads(s@) ==> forall|other: Seq<char>|
            other != name@ ==> #[trigger] json_flag(s@, other) == json_flag(text@, other),
{
    let mut value: serde_json::Value = serde_json::from_str(text).ok()?;
    value.as_object_mut()?.insert(name.to_owned(), serde_json::Value::Bool(true));
    serde_json::to_string_pretty(&value).ok()
}

/// A reason for a capture is that someone took it by hand.
pub open spec fn names_manual(reason: Option<Seq<char>>) -> bool {
    reason == Some("manual"@)
}

/// Whether a reason for a capture is that someone took it by hand.
pub fn is_manual_reason(reason: &Option<String>) -> (r: bool)
    ensures
        r == match reason {
            None => false,
            Some(s) => names_manual(Some(s@)),
        },
{
    match reason {
        None => false,
        Some(s) => is_text(s, "manual"),
    }
}

/// Was this capture taken by hand, going by the text of its sidecar?
///
/// The only distinction the policy makes. Everything else is decided by age. A sidecar that
/// cannot be read, or gives no reason, speaks of no hand.
pub fn is_manual(sidecar: &str) -> (r: bool)
    ensures
        r == names_manual(json_string(sidecar@, "reason"@)),
{
    let reason = string_member(sidecar, "reason");
    is_manual_reason(&reason)
}

/// Does a sidecar say that its audio is gone? None for one that cannot be read.
pub fn is_evicted(sidecar: &str) -> (r: Option<bool>)
    ensures
        r == if json_reads(sidecar@) {
            Some(json_flag(sidecar@, "audio_evicted"@) == Some(true))
        } else {
            None
        },
{
    if !can_read(sidecar) {
        return None;
    }
    match flag_member(sidecar, "audio_evicted") {
        Some(gone) => Some(gone),
        None => Some(false),
    }
}

/// The sidecar `marked` keeps what `before` recorded, with a note that the audio is gone:
/// what stands under every other name stands there still.
pub open spec fn keeps_the_record(before: Seq<char>, marked: Seq<char>) -> bool {
    &&& json_flag(marked, "audio_evicted"@) == Some(true)
    &&& forall|name: Seq<char>|
        name != "audio_evicted"@ ==> #[trigger] json_string(marked, name) == json_string(
            before,
            name,
        )
    &&& forall|name: Seq<char>|
        name != "audio_evicted"@ ==> #[trigger] json_flag(marked, name) == json_flag(before, name)
}

/// The text of a sidecar with a note that its audio is gone; none for one that cannot be
/// read, which is left as it is. The observation survives: where the marked text can be read,
/// it keeps the record.
pub fn mark_evicted(sidecar: &str) -> (r: Option<String>)
    ensures
        r is Some == json_with_true(sidecar@, "audio_evicted"@) is Some,
        r matches Some(s) ==> s@ == json_with_true(sidecar@, "audio_evicted"@)->Some_0,
        r matches Some(s) ==> json_reads(s@) ==> keeps_the_record(sidecar@, s@),
        r matches Some(s) ==> forall|name: Seq<char>|
            name != "audio_evicted"@ && #[trigger] json_string(s@, name) is Some ==> json_string(
                s@,
                name,
            ) == json_string(sidecar@, name),
{
    set_true(sidecar, "audio_evicted")
}

/// Marking a sidecar does not change whether the capture was taken by hand, so that it is
/// kept as long as before.
pub proof fn law_a_mark_does_not_change_the_hand(before: Seq<char>, marked: Seq<char>)
    requires
        keeps_the_record(before, marked),
    ensures
        names_manual(json_string(marked, "reason"@)) == names_manual(
            json_string(before, "reason"@),
        ),
{
    reveal_strlit("audio_evicted");
    reveal_strlit("reason");
    assert("audio_evicted"@.len() != "reason"@.len());
}

/// The stored captures are those with one of these extensions.
pub fn is_capture(extension: &str) -> (r: bool)
    ensures
        r == (extension@ == "wav"@ || extension@ == "flac"@),
{
    let e: String = extension.to_owned();
    is_text(&e, "wav") || is_text(&e, "flac")
}

/// The bytes of the first `n` of some files that have an extension, together.
pub open spec fn bytes_under(files: Seq<(String, u64)>, extension: Seq<char>, n: int) -> int
    decreases n,
{
    if n <= 0 {
        0
    } else {
        bytes_under(files, extension, n - 1) + if files[n - 1].0@ == extension {
            files[n - 1].1 as int
        } else {
            0
        }
    }
}

proof fn lemma_bytes_under_grows(files: Seq<(String, u64)>, extension: Seq<char>, n: int, m: int)
    requires
        0 <= n <= m,
    ensures
        0 <= bytes_under(files, extension, n) <= bytes_under(files, extension, m),
    decreases m,
{
    if n < m {
        lemma_bytes_under_grows(files, extension, n, m - 1);
    } else if n > 0 {
        lemma_bytes_under_grows(files, extension, n - 1, n - 1);
    }
}

/// Total bytes of the files with the given extension, each given by its extension and its
/// size.
pub fn extension_bytes(files: &[(String, u64)], extension: &str) -> (r: u64)
    requires
        bytes_under(files@, extension@, files.len() as int) <= u64::MAX,
    ensures
        r == bytes_under(files@, extension@, files.len() as int),
{
    let mut total: u64 = 0;
    let mut i: usize = 0;
    while i < files.len()
        invariant
            i <= files.len(),
            total == bytes_under(files@, extension@, i as int),
            bytes_under(files@, extension@, files.len() as int) <= u64::MAX,
        decreases files.len() - i,
    {
        proof {
            lemma_bytes_under_grows(files@, extension@, i + 1, files.len() as int);
        }
        if is_text(&files[i].0, extension) {
            total = total + files[i].1;
        }
        i = i + 1;
    }
    total
}

/// How many of the first `n` files have an extension.
pub open spec fn count_under(files: Seq<(String, u64)>, extension: Seq<char>, n: int) -> int
    decreases n,
{
    if n <= 0 {
        0
    } else {
        count_under(files, extension, n - 1) + if files[n - 1].0@ == extension {
            1int
        } else {
            0
        }
    }
}

/// How many observations are held among some files, counting those whose audio has been
/// evicted: sidecars, not recordings, since the record is the thing that lasts.
pub fn record_count(files: &[(String, u64)]) -> (r: usize)
    ensures
        r == count_under(files@, "json"@, files.len() as int),
{
    let mut count: usize = 0;
    let mut i: usize = 0;
    while i < files.len()
        invariant
            i <= files.len(),
            count <= i,
            count == count_under(files@, "json"@, i as int),
        decreases files.len() - i,
    {
        if is_text(&files[i].0, "json") {
            count = count + 1;
        }
        i = i + 1;
    }
    count
}

/// Keeping a directory of exports under a byte budget, oldest first.
///
/// Exports get no ranking: the only thing distinguishing two of them is which you asked for
/// more recently. The files are removed one by one; one that cannot be removed is passed
/// over, and counts as still there.
pub struct ExportSweep {
    sizes: Vec<u64>,
    order: Vec<usize>,
    next: usize,
    total: u64,
    freed: u64,
    budget: u64,
    /// What the files are put in order by.
    keys: Ghost<Seq<i128>>,
}

pub open spec fn ages(files: Seq<(i64, u64)>) -> Seq<i128> {
    files.map_values(|f: (i64, u64)| f.0 as i128)
}

pub open spec fn file_sizes(files: Seq<(i64, u64)>) -> Seq<int> {
    files.map_values(|f: (i64, u64)| f.1 as int)
}

impl ExportSweep {
    /// The sizes of the files.
    pub closed spec fn files(&self) -> Seq<int> {
        self.sizes@.map_values(|n: u64| n as int)
    }

    /// The files, oldest first.
    pub closed spec fn queue(&self) -> Seq<usize> {
        self.order@
    }

    /// How many files have been dealt with.
    pub closed spec fn done(&self) -> int {
        self.next as int
    }

    /// Bytes still there.
    pub closed spec fn held(&self) -> int {
        self.total as int
    }

    /// Bytes removed.
    pub closed spec fn reclaimed(&self) -> int {
        self.freed as int
    }

    pub closed spec fn limit(&self) -> int {
        self.budget as int
    }

    pub closed spec fn wf(&self) -> bool {
        &&& self.next <= self.order.len()
        &&& is_order(self.keys@, self.order@)
        &&& self.keys@.len() == self.sizes.len()
        &&& self.total + self.freed == sum_of(self.files()) <= u64::MAX
        &&& left_after(self.files(), self.order@, self.next as int) <= self.total
    }

    /// A sweep over some files, with nothing done yet.
    pub open spec fn is_fresh(&self, files: Seq<(i64, u64)>, budget: int) -> bool {
        &&& self.files() == file_sizes(files)
        &&& self.queue() == order_of(ages(files))
        &&& self.done() == 0
        &&& self.held() == sum_of(file_sizes(files))
        &&& self.reclaimed() == 0
        &&& self.limit() == budget
    }

    /// The file to remove next, if the budget asks for one. A budget of nothing is no
    /// budget.
    pub open spec fn due(&self) -> Option<usize> {
        if self.limit() == 0 || self.held() <= self.limit() || self.done() >= self.queue().len() {
            None
        } else {
            Some(self.queue()[self.done()])
        }
    }

    /// The sweep `before` with one more file dealt with, which may be `removed`.
    pub open spec fn follows(&self, before: &Self, removed: bool) -> bool {
        let gone = if removed {
            before.files()[before.queue()[before.done()] as int]
        } else {
            0
        };
        &&& self.files() == before.files()
        &&& self.queue() == before.queue()
        &&& self.limit() == before.limit()
        &&& self.done() == before.done() + 1
        &&& self.held() == before.held() - gone
        &&& self.reclaimed() == before.reclaimed() + gone
    }

    /// A sweep over files, each with the time it was last written and its size.
    pub fn new(files: &[(i64, u64)], budget_bytes: u64) -> (r: Self)
        requires
            sum_of(file_sizes(files@)) <= u64::MAX,
        ensures
            r.wf(),
            r.is_fresh(files@, budget_bytes as int),
    {
        let ghost all = file_sizes(files@);
        let mut keys: Vec<i128> = Vec::with_capacity(files.len());
        let mut sizes: Vec<u64> = Vec::with_capacity(files.len());
        let mut total: u64 = 0;
        let mut i: usize = 0;
        assert(all.take(0) =~= Seq::empty());
        while i < files.len()
            invariant
                all == file_sizes(files@),
                sum_of(all) <= u64::MAX,
                i <= files.len(),
                keys.len() == i,
                sizes.len() == i,
                forall|k: int| 0 <= k < i ==> #[trigger] keys[k] == files@[k].0,
                forall|k: int| 0 <= k < i ==> #[trigger] sizes[k] == files@[k].1,
                total == sum_of(all.take(i as int)),
            decreases files.len() - i,
        {
            proof {
                lemma_sum_take(all, i + 1);
            }
            keys.push(files[i].0 as i128);
            sizes.push(files[i].1);
            total = total + files[i].1;
            i = i + 1;
        }
        assert(all.take(files.len() as int) =~= all);
        assert(keys@ =~= ages(files@));
        let order = stable_order(keys.as_slice());
        let r = ExportSweep {
            sizes,
            order,
            next: 0,
            total,
            freed: 0,
            budget: budget_bytes,
            keys: Ghost(keys@),
        };
        assert(r.files() =~= all);
        r
    }

    /// The file to remove next, if the budget asks for one. A budget of nothing is no
    /// budget.
    pub fn next(&self) -> (r: Option<usize>)
        requires
            self.wf(),
        ensures
            r == self.due(),
            r matches Some(k) ==> k < self.files().len(),
    {
        if self.budget == 0 || self.total <= self.budget || self.next >= self.order.len() {
            None
        } else {
            Some(self.order[self.next])
        }
    }

    /// Say whether the file that was to be removed is gone.
    pub fn report(&mut self, removed: bool)
        requires
            old(self).wf(),
            old(self).done() < old(self).queue().len(),
        ensures
            final(self).wf(),
            final(self).follows(old(self), removed),
    {
        let size: u64 = self.sizes[self.order[self.next]];
        proof {
            lemma_left(self.files(), self.keys@, self.order@, self.next as int);
            assert(size == self.files()[self.order@[self.next as int] as int]);
        }
        if removed {
            self.total = self.total - size;
            self.freed = self.freed + size;
        }
        self.next = self.next + 1;
        assert(self.files() == old(self).files());
    }

    /// Bytes reclaimed so far.
    pub fn freed(&self) -> (r: u64)
        ensures
            r == self.reclaimed(),
    {
        self.freed
    }
}

/// `n` is the fewest items, from the front of an order, that must go for the rest to fit a
/// budget. A budget of nothing is no budget.
pub open spec fn is_fewest(sizes: Seq<int>, order: Seq<usize>, budget: int, n: int) -> bool {
    if budget == 0 {
        n == 0
    } else {
        &&& 0 <= n <= order.len()
        &&& left_after(sizes, order, n) <= budget
        &&& n > 0 ==> left_after(sizes, order, n - 1) > budget
    }
}

/// `states` are the states of a whole sweep in which every file goes that is due.
pub open spec fn is_clean_sweep(
    files: Seq<(i64, u64)>,
    budget: int,
    states: Seq<ExportSweep>,
) -> bool {
    &&& states.len() > 0
    &&& states[0].is_fresh(files, budget)
    &&& forall|i: int|
        0 <= i < states.len() - 1 ==> (#[trigger] states[i]).due() is Some
            && states[i + 1].follows(&states[i], true)
    &&& states.last().due() is None
}

proof fn lemma_clean_sweep(
    files: Seq<(i64, u64)>,
    budget: int,
    states: Seq<ExportSweep>,
    i: int,
)
    requires
        is_clean_sweep(files, budget, states),
        0 <= i < states.len(),
    ensures
        states[i].files() == file_sizes(files),
        states[i].queue() == order_of(ages(files)),
        states[i].limit() == budget,
        states[i].done() == i,
        states[i].held() == left_after(file_sizes(files), order_of(ages(files)), i),
        states[i].reclaimed() == sum_of(file_sizes(files)) - states[i].held(),
    decreases i,
{
    if i > 0 {
        lemma_clean_sweep(files, budget, states, i - 1);
        assert(states[i - 1].due() is Some && states[i - 1 + 1].follows(&states[i - 1], true));
    }
}

/// A whole sweep in which every deletion succeeds removes files oldest first, and no more
/// of them than it takes for the rest to fit the budget.
pub proof fn law_a_sweep_removes_no_more_than_it_takes(
    files: Seq<(i64, u64)>,
    budget: int,
    states: Seq<ExportSweep>,
)
    requires
        files.len() <= usize::MAX,
        budget >= 0,
        is_clean_sweep(files, budget, states),
    ensures
        ({
            let sizes = file_sizes(files);
            let order = order_of(ages(files));
            let n = states.len() - 1;
            &&& is_fewest(sizes, order, budget, n)
            &&& forall|i: int|
                0 <= i < n ==> (#[trigger] states[i]).due() == Some(order[i])
            &&& states.last().reclaimed() == sum_of(sizes) - left_after(sizes, order, n)
        }),
{
    let sizes = file_sizes(files);
    let order = order_of(ages(files));
    let n = states.len() - 1;
    lemma_order_exists(ages(files));
    lemma_clean_sweep(files, budget, states, n);
    assert forall|i: int| 0 <= i < n implies (#[trigger] states[i]).due() == Some(order[i]) by {
        lemma_clean_sweep(files, budget, states, i);
    }
    if n > 0 {
        lemma_clean_sweep(files, budget, states, n - 1);
        assert(states[n - 1].due() is Some);
    }
    if n == order.len() {
        lemma_left(sizes, ages(files), order, n);
    }
}

/// Letting captures go, one by one, to meet the disk budget. The audio of one that cannot be
/// deleted stays, and its record is left as it is.
pub struct CaptureSweep {
    sizes: Vec<u64>,
    doomed: Vec<usize>,
    next: usize,
    freed: u64,
    /// What the captures are put in order by.
    keys: Ghost<Seq<i128>>,
}

impl CaptureSweep {
    /// The sizes of the captures.
    pub closed spec fn captures(&self) -> Seq<int> {
        self.sizes@.map_values(|n: u64| n as int)
    }

    /// The captures to let go, in the order to do it.
    pub closed spec fn queue(&self) -> Seq<usize> {
        self.doomed@
    }

    /// How many captures have been dealt with.
    pub closed spec fn done(&self) -> int {
        self.next as int
    }

    /// Bytes removed.
    pub closed spec fn reclaimed(&self) -> int {
        self.freed as int
    }

    pub closed spec fn wf(&self) -> bool {
        let order = order_of(self.keys@);
        &&& is_order(self.keys@, order)
        &&& self.keys@.len() == self.sizes.len()
        &&& self.next <= self.doomed.len() <= order.len()
        &&& self.doomed@ == order.take(self.doomed.len() as int)
        &&& self.freed + left_after(self.captures(), order, self.next as int) <= sum_of(
            self.captures(),
        ) <= u64::MAX
    }

    /// A sweep over some captures, with nothing done yet.
    pub open spec fn is_fresh(&self, records: Seq<Record>, budget: int) -> bool {
        &&& self.captures() == sizes_of(records)
        &&& is_doomed(records, budget, self.queue())
        &&& self.done() == 0
        &&& self.reclaimed() == 0
    }

    /// The capture to let go next, if there is one.
    pub open spec fn due(&self) -> Option<usize> {
        if self.done() < self.queue().len() {
            Some(self.queue()[self.done()])
        } else {
            None
        }
    }

    /// The sweep `before` with one more capture dealt with, which may be `removed`.
    pub open spec fn follows(&self, before: &Self, removed: bool) -> bool {
        &&& self.captures() == before.captures()
        &&& self.queue() == before.queue()
        &&& self.done() == before.done() + 1
        &&& self.reclaimed() == before.reclaimed() + if removed {
            before.captures()[before.queue()[before.done()] as int]
        } else {
            0
        }
    }

    /// A sweep over the captures held.
    pub fn new(records: &[Record], policy: &Policy) -> (r: Self)
        requires
            bytes_of(records@) <= u64::MAX,
        ensures
            r.wf(),
            r.is_fresh(records@, policy.budget_bytes as int),
    {
        let doomed = evictions(records, policy);
        let mut sizes: Vec<u64> = Vec::with_capacity(records.len());
        let mut i: usize = 0;
        while i < records.len()
            invariant
                i <= records.len(),
                sizes.len() == i,
                forall|k: int| 0 <= k < i ==> #[trigger] sizes[k] == records@[k].bytes,
            decreases records.len() - i,
        {
            sizes.push(records[i].bytes);
            i = i + 1;
        }
        proof {
            lemma_order_exists(seniorities(records@));
            assert(doomed@ =~= eviction_order(records@).take(doomed.len() as int));
        }
        let r = CaptureSweep {
            sizes,
            doomed,
            next: 0,
            freed: 0,
            keys: Ghost(seniorities(records@)),
        };
        assert(r.captures() =~= sizes_of(records@));
        r
    }

    /// The capture whose audio to delete next.
    pub fn next(&self) -> (r: Option<usize>)
        requires
            self.wf(),
        ensures
            r == self.due(),
            r matches Some(k) ==> k < self.captures().len(),
    {
        if self.next < self.doomed.len() {
            let k: usize = self.doomed[self.next];
            assert(k == order_of(self.keys@)[self.next as int]);
            Some(k)
        } else {
            None
        }
    }

    /// Say whether the audio that was to be deleted is gone.
    pub fn report(&mut self, removed: bool)
        requires
            old(self).wf(),
            old(self).due() is Some,
        ensures
            final(self).wf(),
            final(self).follows(old(self), removed),
    {
        let ghost order = order_of(self.keys@);
        let k: usize = self.doomed[self.next];
        assert(k == order[self.next as int]);
        let size: u64 = self.sizes[k];
        proof {
            lemma_left(self.captures(), self.keys@, order, self.next as int);
            assert(size == self.captures()[k as int]);
        }
        if removed {
            self.freed = self.freed + size;
        }
        self.next = self.next + 1;
        assert(self.captures() == old(self).captures());
    }

    /// Bytes reclaimed so far.
    pub fn freed(&self) -> (r: u64)
        ensures
            r == self.reclaimed(),
    {
        self.freed
    }
}

/// `states` are the states of a whole sweep in which the audio goes of every capture that is
/// due.
pub open spec fn is_clean_clearing(
    records: Seq<Record>,
    budget: int,
    states: Seq<CaptureSweep>,
) -> bool {
    &&& states.len() > 0
    &&& states[0].is_fresh(records, budget)
    &&& forall|i: int|
        0 <= i < states.len() - 1 ==> (#[trigger] states[i]).due() is Some
            && states[i + 1].follows(&states[i], true)
    &&& states.last().due() is None
}

proof fn lemma_clean_clearing(
    records: Seq<Record>,
    budget: int,
    states: Seq<CaptureSweep>,
    i: int,
)
    requires
        is_clean_clearing(records, budget, states),
        0 <= i < states.len(),
    ensures
        states[i].captures() == sizes_of(records),
        states[i].queue() == states[0].queue(),
        states[i].done() == i <= states[0].queue().len(),
        states[i].reclaimed() == bytes_of(records) - bytes_after(records, i),
    decreases i,
{
    if i > 0 {
        lemma_clean_clearing(records, budget, states, i - 1);
        assert(states[i - 1].due() is Some && states[i - 1 + 1].follows(&states[i - 1], true));
        assert(states[0].queue()[i - 1] == eviction_order(records)[i - 1]);
    }
}

/// A whole sweep in which every deletion succeeds lets exactly those captures go that the
/// policy condemns, and what it frees is what is missing from the bytes held before.
pub proof fn law_a_sweep_lets_the_condemned_go(
    records: Seq<Record>,
    budget: int,
    states: Seq<CaptureSweep>,
)
    requires
        is_clean_clearing(records, budget, states),
    ensures
        is_doomed(records, budget, states[0].queue()),
        states.len() - 1 == states[0].queue().len(),
        forall|i: int|
            0 <= i < states.len() - 1 ==> (#[trigger] states[i]).due() == Some(
                states[0].queue()[i],
            ),
        states.last().reclaimed() == bytes_of(records) - bytes_after(records, states.len() - 1),
{
    let n = states.len() - 1;
    lemma_clean_clearing(records, budget, states, n);
    assert forall|i: int| 0 <= i < n implies (#[trigger] states[i]).due() == Some(
        states[0].queue()[i],
    ) by {
        lemma_clean_clearing(records, budget, states, i);
    }
}

} // verus!
