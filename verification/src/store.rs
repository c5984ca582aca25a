//! The record store: an ordered set of records mirroring one backing
//! file. The store itself is pure — the surrounding application reads
//! the file's text into it and writes its text back out — so every
//! operation here is exact: append, point update and delete by id, and
//! a read-time view sorted by start time, most recent first.

use vstd::prelude::*;

use crate::codec::{decode_file, encode_file, enc_file, spec_decode_file, views};
use crate::error::StoreError;
use crate::record::{record_valid, Pomodoro};
use crate::time::{parse_rfc3339, spec_parse_rfc3339, ts_le, ts_leq, ts_less, ts_lt, ts_valid, Timestamp};

verus! {

/// Every record in the sequence is well-formed.
pub open spec fn records_valid(s: Seq<Pomodoro>) -> bool {
    forall|k: int| 0 <= k < s.len() ==> record_valid(#[trigger] s[k]@)
}

/// Non-increasing by start time: the read-time view order.
pub open spec fn sorted_by_start_desc(s: Seq<Pomodoro>) -> bool {
    forall|a: int, b: int|
        0 <= a < b < s.len() ==> ts_le(#[trigger] s[b].start_time, #[trigger] s[a].start_time)
}

/// Whether some record in the sequence carries the given id.
pub open spec fn has_id(s: Seq<Pomodoro>, id: Seq<char>) -> bool {
    exists|j: int| 0 <= j < s.len() && (#[trigger] s[j]).id@ == id
}

/// Keeping a record means its id differs from the one being deleted.
pub open spec fn keeps_id(id: Seq<char>) -> spec_fn(Pomodoro) -> bool {
    |q: Pomodoro| q.id@ != id
}

/// The index of the first record with the given id, or -1.
pub open spec fn first_with_id(s: Seq<Pomodoro>, id: Seq<char>) -> int
    decreases s.len(),
{
    if s.len() == 0 {
        -1
    } else if s[0].id@ == id {
        0
    } else {
        let k = first_with_id(s.subrange(1, s.len() as int), id);
        if k == -1 {
            -1
        } else {
            k + 1
        }
    }
}

/// What `first_with_id` finds: the unique first match, if any.
pub proof fn lemma_first_with_id(s: Seq<Pomodoro>, id: Seq<char>)
    ensures
        first_with_id(s, id) >= -1,
        first_with_id(s, id) == -1 ==> forall|j: int| 0 <= j < s.len() ==> s[j].id@ != id,
        first_with_id(s, id) >= 0 ==> 0 <= first_with_id(s, id) < s.len() && s[first_with_id(
            s,
            id,
        )].id@ == id,
        first_with_id(s, id) >= 0 ==> forall|j: int|
            0 <= j < first_with_id(s, id) ==> s[j].id@ != id,
    decreases s.len(),
{
    if s.len() > 0 && s[0].id@ != id {
        let tail = s.subrange(1, s.len() as int);
        lemma_first_with_id(tail, id);
        let kt = first_with_id(tail, id);
        if kt == -1 {
            assert forall|j: int| 0 <= j < s.len() implies s[j].id@ != id by {
                if j >= 1 {
                    assert(tail[j - 1] == s[j]);
                    assert(tail[j - 1].id@ != id);
                }
            }
        } else {
            assert(s[kt + 1] == tail[kt]);
            assert forall|j: int| 0 <= j < kt + 1 implies s[j].id@ != id by {
                if j >= 1 {
                    assert(tail[j - 1] == s[j]);
                    assert(tail[j - 1].id@ != id);
                }
            }
        }
    }
}

/// The record store. Its abstract state is the record sequence in file
/// order (insertion order); sorting happens only in `read_all`'s view.
pub struct CsvStorage {
    records: Vec<Pomodoro>,
}

impl View for CsvStorage {
    type V = Seq<Pomodoro>;

    closed spec fn view(&self) -> Seq<Pomodoro> {
        self.records@
    }
}

impl CsvStorage {
    /// An empty store.
    pub fn new() -> (r: Self)
        ensures
            r@ == Seq::<Pomodoro>::empty(),
    {
        CsvStorage { records: Vec::new() }
    }

    /// A store holding the given records, in order.
    pub fn from_records(records: Vec<Pomodoro>) -> (r: Self)
        ensures
            r@ == records@,
    {
        CsvStorage { records }
    }

    /// A store read from a file's text. One bad row fails the whole
    /// load; nothing is skipped.
    pub fn load(text: &str) -> (r: Result<Self, StoreError>)
        requires
            text@.len() <= usize::MAX,
        ensures
            r is Ok <==> spec_decode_file(text@) is Some,
            r matches Ok(st) ==> Some(views(st@)) == spec_decode_file(text@) && records_valid(st@),
            r matches Err(e) ==> e is DecodeError,
    {
        match decode_file(text) {
            Ok(records) => Ok(CsvStorage { records }),
            Err(e) => Err(e),
        }
    }

    /// The store's file text: the header, then one row per record in
    /// file order.
    pub fn to_text(&self) -> (r: String)
        requires
            records_valid(self@),
        ensures
            r@ == enc_file(views(self@)),
    {
        encode_file(&self.records)
    }

    /// The number of records held.
    pub fn len(&self) -> (r: usize)
        ensures
            r == self@.len(),
    {
        self.records.len()
    }

    /// Adds one record at the end, touching nothing else.
    pub fn append(&mut self, p: Pomodoro)
        ensures
            final(self)@ == old(self)@.push(p),
    {
        self.records.push(p);
    }

    /// Replaces the first matching record of the read-time view: the
    /// one `read_all` lists first (start time descending) among those
    /// carrying the id. The store afterwards holds that view with the
    /// replacement, as a full rewrite after reading would leave it;
    /// with no match the store is unchanged — a silent no-op, not an
    /// error.
    pub fn update(&mut self, p: Pomodoro)
        requires
            records_valid(old(self)@),
        ensures
            !has_id(old(self)@, p.id@) ==> final(self)@ == old(self)@,
            has_id(old(self)@, p.id@) ==> exists|v: Seq<Pomodoro>|
                {
                    &&& #[trigger] v.to_multiset() == old(self)@.to_multiset()
                    &&& sorted_by_start_desc(v)
                    &&& 0 <= first_with_id(v, p.id@) < v.len()
                    &&& final(self)@ == v.update(first_with_id(v, p.id@), p)
                },
            final(self)@.len() == old(self)@.len(),
    {
        let mut sorted = self.read_all();
        let ghost v = sorted@;
        proof {
            broadcast use vstd::seq_lib::group_to_multiset_ensures;

            assert(v.to_multiset().len() == v.len());
            assert(old(self)@.to_multiset().len() == old(self)@.len());
        }
        let n = sorted.len();
        let mut i: usize = 0;
        while i < n
            invariant
                0 <= i <= n,
                n == sorted@.len(),
                sorted@ == v,
                v.to_multiset() == old(self)@.to_multiset(),
                v.len() == old(self)@.len(),
                sorted_by_start_desc(v),
                self@ == old(self)@,
                forall|j: int| 0 <= j < i ==> (#[trigger] v[j]).id@ != p.id@,
            decreases n - i,
        {
            if sorted[i].id == p.id {
                proof {
                    broadcast use vstd::seq_lib::group_to_multiset_ensures;

                    lemma_first_with_id(v, p.id@);
                    assert(first_with_id(v, p.id@) == i);
                    // The matched record sits in the store too, so the
                    // store does carry the id.
                    let rec = v[i as int];
                    assert(v.contains(rec));
                    assert(old(self)@.to_multiset().count(rec) > 0);
                    assert(old(self)@.contains(rec));
                    let j = choose|j: int| 0 <= j < old(self)@.len() && old(self)@[j] == rec;
                    assert((old(self)@[j]).id@ == p.id@);
                    assert(has_id(old(self)@, p.id@));
                }
                sorted.set(i, p);
                self.records = sorted;
                return ;
            }
            i = i + 1;
        }
        proof {
            broadcast use vstd::seq_lib::group_to_multiset_ensures;

            assert forall|j: int| 0 <= j < old(self)@.len() implies (#[trigger] old(
                self,
            )@[j]).id@ != p.id@ by {
                let rec = old(self)@[j];
                assert(old(self)@.contains(rec));
                assert(v.to_multiset().count(rec) > 0);
                assert(v.contains(rec));
                let k = choose|k: int| 0 <= k < v.len() && v[k] == rec;
                assert(v[k].id@ != p.id@);
            }
            assert(!has_id(old(self)@, p.id@));
        }
    }

    /// Decides `records_valid` of the store's contents.
    pub fn is_wf(&self) -> (r: bool)
        ensures
            r == records_valid(self@),
    {
        let n = self.records.len();
        let mut i: usize = 0;
        while i < n
            invariant
                0 <= i <= n,
                n == self.records@.len(),
                forall|k: int| 0 <= k < i ==> record_valid(#[trigger] self.records@[k]@),
            decreases n - i,
        {
            if !self.records[i].is_valid() {
                return false;
            }
            i = i + 1;
        }
        true
    }

    /// Removes every record with the given id (defensively more than
    /// one, since id uniqueness is only a soft invariant).
    pub fn delete(&mut self, id: &str)
        ensures
            final(self)@ == old(self)@.filter(keeps_id(id@)),
    {
        let n = self.records.len();
        let id_owned = String::from_str(id);
        let mut kept: Vec<Pomodoro> = Vec::new();
        let mut i: usize = 0;
        proof {
            assert(old(self)@.subrange(0, 0) =~= Seq::<Pomodoro>::empty());
            reveal(Seq::filter);
            assert(Seq::<Pomodoro>::empty().filter(keeps_id(id@)) =~= Seq::<
                Pomodoro,
            >::empty());
        }
        while i < n
            invariant
                0 <= i <= n,
                n == self.records@.len(),
                self@ == old(self)@,
                id_owned@ == id@,
                kept@ == old(self)@.subrange(0, i as int).filter(keeps_id(id@)),
            decreases n - i,
        {
            let ghost pred = keeps_id(id@);
            let ghost prefix = old(self)@.subrange(0, i as int);
            let keep = !(self.records[i].id == id_owned);
            if keep {
                let p = self.records[i].clone();
                kept.push(p);
            }
            proof {
                let longer = old(self)@.subrange(0, i as int + 1);
                assert(longer.drop_last() =~= prefix);
                assert(longer.last() == old(self)@[i as int]);
                reveal(Seq::filter);
                assert(longer.filter(pred) == if pred(old(self)@[i as int]) {
                    prefix.filter(pred).push(old(self)@[i as int])
                } else {
                    prefix.filter(pred)
                });
            }
            i = i + 1;
        }
        proof {
            assert(old(self)@.subrange(0, n as int) =~= old(self)@);
        }
        self.records = kept;
    }

    /// All records, sorted by start time descending (most recent
    /// first): a read-time view — the store's own order is untouched.
    pub fn read_all(&self) -> (r: Vec<Pomodoro>)
        requires
            records_valid(self@),
        ensures
            r@.to_multiset() == self@.to_multiset(),
            r@.len() == self@.len(),
            sorted_by_start_desc(r@),
            records_valid(r@),
    {
        let n = self.records.len();
        let mut out: Vec<Pomodoro> = Vec::new();
        let mut i: usize = 0;
        proof {
            broadcast use vstd::seq_lib::group_to_multiset_ensures;

            assert(self@.subrange(0, 0) =~= Seq::<Pomodoro>::empty());
            assert(out@.to_multiset() =~= self@.subrange(0, 0).to_multiset());
        }
        while i < n
            invariant
                0 <= i <= n,
                n == self.records@.len(),
                out@.to_multiset() == self@.subrange(0, i as int).to_multiset(),
                out@.len() == i,
                sorted_by_start_desc(out@),
                records_valid(self@),
                records_valid(out@),
            decreases n - i,
        {
            let x = self.records[i].clone();
            proof {
                assert forall|k: int| 0 <= k < out@.len() implies ts_valid(
                    #[trigger] out@[k].start_time,
                ) by {
                    assert(record_valid(out@[k]@));
                }
                assert(record_valid(x@));
            }
            let mut p: usize = out.len();
            while p > 0 && ts_less(&out[p - 1].start_time, &x.start_time)
                invariant
                    0 <= p <= out@.len(),
                    forall|k: int| p <= k < out@.len() ==> ts_lt(
                        #[trigger] out@[k].start_time,
                        x.start_time,
                    ),
                    forall|k: int| 0 <= k < out@.len() ==> ts_valid(
                        #[trigger] out@[k].start_time,
                    ),
                    ts_valid(x.start_time),
                decreases p,
            {
                p = p - 1;
            }
            let ghost before = out@;
            out.insert(p, x);
            proof {
                broadcast use vstd::seq_lib::group_to_multiset_ensures;

                let longer = self@.subrange(0, i as int + 1);
                assert(longer =~= self@.subrange(0, i as int).push(self@[i as int]));
                assert(self@.subrange(0, i as int).push(self@[i as int]).to_multiset()
                    =~= self@.subrange(0, i as int).to_multiset().insert(self@[i as int]));
                assert(out@ == before.insert(p as int, x));
                assert(before.insert(p as int, x).to_multiset() =~= before.to_multiset().insert(
                    x,
                ));
                assert(out@.to_multiset() =~= longer.to_multiset());
                assert forall|a: int, b: int| 0 <= a < b < out@.len() implies ts_le(
                    #[trigger] out@[b].start_time,
                    #[trigger] out@[a].start_time,
                ) by {
                    if b < p {
                        assert(out@[a] == before[a] && out@[b] == before[b]);
                    } else if a > p {
                        assert(out@[a] == before[a - 1] && out@[b] == before[b - 1]);
                    } else if a < p && b == p {
                        assert(out@[a] == before[a]);
                        assert(!ts_lt(before[(p - 1) as int].start_time, x.start_time));
                        assert(ts_le(before[(p - 1) as int].start_time, before[a].start_time));
                    } else if a == p && b > p {
                        assert(out@[b] == before[b - 1]);
                        assert(ts_lt(before[b - 1].start_time, x.start_time));
                    } else if a < p && b > p {
                        assert(out@[a] == before[a] && out@[b] == before[b - 1]);
                        assert(ts_lt(before[b - 1].start_time, x.start_time));
                        if p > 0 {
                            assert(!ts_lt(before[(p - 1) as int].start_time, x.start_time));
                            assert(ts_le(before[(p - 1) as int].start_time, before[a].start_time));
                        }
                    }
                }
            }
            i = i + 1;
        }
        proof {
            assert(self@.subrange(0, n as int) =~= self@);
        }
        out
    }
}

/// Keeping a record under optional range bounds: at or after `lo` (when
/// given) and at or before `hi` (when given) — the upper bound is
/// inclusive here, unlike a report window's.
pub open spec fn in_range(lo: Option<Timestamp>, hi: Option<Timestamp>) -> spec_fn(
    Pomodoro,
) -> bool {
    |q: Pomodoro|
        {
            &&& (lo matches Some(b) ==> ts_le(b, q.start_time))
            &&& (hi matches Some(b) ==> ts_le(q.start_time, b))
        }
}

/// The records starting inside an optional date range. A bound that
/// fails to parse as an RFC-3339 timestamp is an invalid argument.
pub fn filter_by_date_range(
    records: &Vec<Pomodoro>,
    start_date: Option<&str>,
    end_date: Option<&str>,
) -> (r: Result<Vec<Pomodoro>, StoreError>)
    requires
        records_valid(records@),
        start_date matches Some(s) ==> s@.len() <= usize::MAX,
        end_date matches Some(s) ==> s@.len() <= usize::MAX,
    ensures
        r is Ok <==> ((start_date matches Some(s) ==> spec_parse_rfc3339(s@) is Some) && (
        end_date matches Some(s) ==> spec_parse_rfc3339(s@) is Some)),
        r matches Ok(v) ==> v@ == records@.filter(
            in_range(
                match start_date {
                    Some(s) => spec_parse_rfc3339(s@),
                    None => None,
                },
                match end_date {
                    Some(s) => spec_parse_rfc3339(s@),
                    None => None,
                },
            ),
        ),
        r matches Err(e) ==> e is InvalidArgument,
{
    let lo: Option<Timestamp> = match start_date {
        Some(s) => match parse_rfc3339(s) {
            Some(t) => Some(t),
            None => {
                return Err(StoreError::InvalidArgument(String::from_str("Invalid start_date")));
            },
        },
        None => None,
    };
    let hi: Option<Timestamp> = match end_date {
        Some(s) => match parse_rfc3339(s) {
            Some(t) => Some(t),
            None => {
                return Err(StoreError::InvalidArgument(String::from_str("Invalid end_date")));
            },
        },
        None => None,
    };
    let ghost pred = in_range(lo, hi);
    let n = records.len();
    let mut kept: Vec<Pomodoro> = Vec::new();
    let mut i: usize = 0;
    proof {
        assert(records@.subrange(0, 0) =~= Seq::<Pomodoro>::empty());
        reveal(Seq::filter);
        assert(Seq::<Pomodoro>::empty().filter(pred) =~= Seq::<Pomodoro>::empty());
    }
    while i < n
        invariant
            0 <= i <= n,
            n == records@.len(),
            records_valid(records@),
            lo matches Some(b) ==> ts_valid(b),
            hi matches Some(b) ==> ts_valid(b),
            kept@ == records@.subrange(0, i as int).filter(in_range(lo, hi)),
        decreases n - i,
    {
        proof {
            assert(record_valid(records@[i as int]@));
        }
        let p = &records[i];
        let after_lo = match &lo {
            Some(b) => ts_leq(b, &p.start_time),
            None => true,
        };
        let before_hi = match &hi {
            Some(b) => ts_leq(&p.start_time, b),
            None => true,
        };
        if after_lo && before_hi {
            kept.push(records[i].clone());
        }
        proof {
            let pred = in_range(lo, hi);
            let longer = records@.subrange(0, i as int + 1);
            assert(longer.drop_last() =~= records@.subrange(0, i as int));
            assert(longer.last() == records@[i as int]);
            reveal(Seq::filter);
            assert(pred(records@[i as int]) == (after_lo && before_hi));
        }
        i = i + 1;
    }
    proof {
        assert(records@.subrange(0, n as int) =~= records@);
    }
    Ok(kept)
}

// ------------------------------------------------------------------
// Laws tying the operations together.
// ------------------------------------------------------------------

/// Appending a record then reading back gives every prior record plus
/// the new one: the count grows by exactly one and the new record is
/// present in the read-back view.
pub proof fn lemma_append_monotonic(s: Seq<Pomodoro>, p: Pomodoro, r: Seq<Pomodoro>)
    requires
        r.to_multiset() == s.push(p).to_multiset(),
    ensures
        r.len() == s.len() + 1,
        r.contains(p),
{
    broadcast use vstd::seq_lib::group_to_multiset_ensures;

    assert(r.to_multiset().len() == r.len());
    assert(s.push(p).to_multiset().len() == s.push(p).len());
    assert(s.push(p)[s.len() as int] == p);
    assert(s.push(p).contains(p));
    assert(s.push(p).to_multiset().count(p) > 0);
    assert(r.to_multiset().count(p) > 0);
    assert(r.contains(p));
}

/// Updating through the read-time view replaces exactly its first
/// matching record and no other; the count is unchanged. A view without
/// the id has nothing replaced.
pub proof fn lemma_update_targeting(s: Seq<Pomodoro>, p: Pomodoro)
    ensures
        first_with_id(s, p.id@) == -1 ==> forall|j: int| 0 <= j < s.len() ==> s[j].id@ != p.id@,
        first_with_id(s, p.id@) >= 0 ==> {
            let k = first_with_id(s, p.id@);
            let t = s.update(k, p);
            &&& s[k].id@ == p.id@
            &&& t.len() == s.len()
            &&& t[k] == p
            &&& forall|j: int| 0 <= j < s.len() && j != k ==> t[j] == s[j]
        },
{
    lemma_first_with_id(s, p.id@);
}

/// Deleting an id that no record carries leaves the store unchanged.
pub proof fn lemma_delete_absent(s: Seq<Pomodoro>, id: Seq<char>)
    requires
        forall|j: int| 0 <= j < s.len() ==> s[j].id@ != id,
    ensures
        s.filter(keeps_id(id)) == s,
    decreases s.len(),
{
    reveal(Seq::filter);
    if s.len() == 0 {
        assert(s.filter(keeps_id(id)) =~= s);
    } else {
        assert(forall|j: int| 0 <= j < s.drop_last().len() ==> s.drop_last()[j].id@ != id);
        lemma_delete_absent(s.drop_last(), id);
        assert(s.last().id@ != id);
        assert(s.filter(keeps_id(id)) =~= s);
    }
}

/// Deleting an id that exactly one record carries removes exactly one
/// record.
pub proof fn lemma_delete_present(s: Seq<Pomodoro>, id: Seq<char>, k: int)
    requires
        0 <= k < s.len(),
        s[k].id@ == id,
        forall|j: int| 0 <= j < s.len() && j != k ==> s[j].id@ != id,
    ensures
        s.filter(keeps_id(id)).len() == s.len() - 1,
    decreases s.len(),
{
    reveal(Seq::filter);
    let pred = keeps_id(id);
    if k == s.len() - 1 {
        assert(!pred(s.last()));
        assert(forall|j: int| 0 <= j < s.drop_last().len() ==> s.drop_last()[j].id@ != id);
        lemma_delete_absent(s.drop_last(), id);
    } else {
        assert(pred(s.last()));
        assert(s.drop_last()[k] == s[k]);
        assert(forall|j: int|
            0 <= j < s.drop_last().len() && j != k ==> s.drop_last()[j].id@ != id);
        lemma_delete_present(s.drop_last(), id, k);
    }
}

} // verus!
