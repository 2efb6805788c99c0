//! Reconciliation: merging a previously loaded caption table with the
//! images currently on disk. Identity is decided by the canonical form
//! of each image path (computed at the edge of the program and carried
//! here as a plain string), never by the displayed name. Every loaded
//! record is kept unchanged, every image whose canonical path is not yet
//! in the table is appended with an empty caption, and the result is
//! sorted by file name.

use vstd::prelude::*;
use vstd::multiset::Multiset;
use crate::chars::chars_le;
use crate::chars::lemma_chars_le_total;
use crate::chars::lemma_chars_le_trans;
use crate::chars::lemma_filter_push;
use crate::chars::lemma_filter_all_false;
use crate::chars::str_le;
use crate::paths::filename_of;
use crate::record::CaptionRecord;

verus! {

/// A caption record together with the canonical form of its image path,
/// under which identity is decided during reconciliation.
#[derive(Debug)]
pub struct KeyedRecord {
    /// The record itself.
    pub record: CaptionRecord,
    /// The canonical form of the record's image path.
    pub key: String,
}

/// A discovered image: its path as listed, and the canonical form of
/// that path.
#[derive(Debug)]
pub struct DiscoveredImage {
    /// The path under which the image was discovered.
    pub path: String,
    /// The canonical form of that path.
    pub key: String,
}

/// The mathematical model of a keyed record.
pub struct RecordModel {
    pub path: Seq<char>,
    pub caption: Seq<char>,
    pub key: Seq<char>,
}

/// The mathematical model of a discovered image.
pub struct ImageModel {
    pub path: Seq<char>,
    pub key: Seq<char>,
}

impl View for KeyedRecord {
    type V = RecordModel;

    open spec fn view(&self) -> RecordModel {
        RecordModel { path: self.record.image_path@, caption: self.record.caption@, key: self.key@ }
    }
}

impl View for DiscoveredImage {
    type V = ImageModel;

    open spec fn view(&self) -> ImageModel {
        ImageModel { path: self.path@, key: self.key@ }
    }
}

/// The models of a sequence of keyed records.
pub open spec fn rec_models(s: Seq<KeyedRecord>) -> Seq<RecordModel> {
    s.map_values(|r: KeyedRecord| r@)
}

/// The models of a sequence of discovered images.
pub open spec fn img_models(s: Seq<DiscoveredImage>) -> Seq<ImageModel> {
    s.map_values(|d: DiscoveredImage| d@)
}

/// Whether some record of the table carries the given canonical key.
pub open spec fn has_key(e: Seq<RecordModel>, k: Seq<char>) -> bool {
    exists|i: int| 0 <= i < e.len() && e[i].key == k
}

/// The empty-caption record a discovered image gives rise to.
pub open spec fn fresh_record(d: ImageModel) -> RecordModel {
    RecordModel { path: d.path, caption: Seq::empty(), key: d.key }
}

/// The empty-caption records for the images whose key is absent from
/// the table, in discovery order.
pub open spec fn fresh_records(e: Seq<RecordModel>, d: Seq<ImageModel>) -> Seq<RecordModel> {
    d.filter(|x: ImageModel| !has_key(e, x.key)).map_values(|x: ImageModel| fresh_record(x))
}

/// Record order: ascending by file name.
pub open spec fn rec_le(a: RecordModel, b: RecordModel) -> bool {
    chars_le(filename_of(a.path), filename_of(b.path))
}

/// A record inserted into a sorted sequence, after every record whose
/// file name is not greater.
pub open spec fn insert_sorted(s: Seq<RecordModel>, x: RecordModel) -> Seq<RecordModel>
    decreases s.len(),
{
    if s.len() > 0 && rec_le(s[0], x) {
        seq![s[0]] + insert_sorted(s.drop_first(), x)
    } else {
        seq![x] + s
    }
}

/// Insertion sort of records by file name.
pub open spec fn sort_records(s: Seq<RecordModel>) -> Seq<RecordModel>
    decreases s.len(),
{
    if s.len() == 0 {
        Seq::empty()
    } else {
        insert_sorted(sort_records(s.drop_last()), s.last())
    }
}

/// Ascending file-name order.
pub open spec fn sorted_by_filename(s: Seq<RecordModel>) -> bool {
    forall|i: int, j: int| 0 <= i < j < s.len() ==> rec_le(s[i], s[j])
}

/// What reconciliation yields: the loaded records, the empty-caption
/// records of the images not yet in the table, all sorted by file name.
pub open spec fn reconcile_spec(e: Seq<RecordModel>, d: Seq<ImageModel>) -> Seq<RecordModel> {
    sort_records(e + fresh_records(e, d))
}

/// Prepending one element inserts it into the sequence's multiset.
proof fn lemma_cons_to_multiset<A>(x: A, s: Seq<A>)
    ensures
        (seq![x] + s).to_multiset() == s.to_multiset().insert(x),
{
    broadcast use vstd::seq_lib::group_to_multiset_ensures;
    broadcast use vstd::multiset::group_multiset_axioms;

    vstd::seq_lib::lemma_multiset_commutative(seq![x], s);
    assert(seq![x] =~= Seq::<A>::empty().push(x));
    assert(Seq::<A>::empty().to_multiset().len() == 0);
    assert(Seq::<A>::empty().to_multiset() =~= Multiset::<A>::empty());
    assert(seq![x].to_multiset() =~= Multiset::<A>::empty().insert(x));
    assert(Multiset::<A>::empty().insert(x).add(s.to_multiset()) =~= s.to_multiset().insert(x));
}

/// Insertion adds exactly the inserted record to the multiset.
pub proof fn lemma_insert_sorted_multiset(s: Seq<RecordModel>, x: RecordModel)
    ensures
        insert_sorted(s, x).to_multiset() == s.to_multiset().insert(x),
        insert_sorted(s, x).len() == s.len() + 1,
    decreases s.len(),
{
    broadcast use vstd::seq_lib::group_to_multiset_ensures;
    broadcast use vstd::multiset::group_multiset_axioms;

    if s.len() > 0 && rec_le(s[0], x) {
        let t = insert_sorted(s.drop_first(), x);
        lemma_insert_sorted_multiset(s.drop_first(), x);
        lemma_cons_to_multiset(s[0], t);
        lemma_cons_to_multiset(s[0], s.drop_first());
        assert(s =~= seq![s[0]] + s.drop_first());
        assert(t.to_multiset().insert(s[0]) =~= s.drop_first().to_multiset().insert(s[0]).insert(
            x,
        ));
    } else {
        lemma_cons_to_multiset(x, s);
    }
}

/// Sorting preserves the multiset (hence the length and the members).
pub proof fn lemma_sort_records_multiset(s: Seq<RecordModel>)
    ensures
        sort_records(s).to_multiset() == s.to_multiset(),
        sort_records(s).len() == s.len(),
    decreases s.len(),
{
    broadcast use vstd::seq_lib::group_to_multiset_ensures;
    broadcast use vstd::multiset::group_multiset_axioms;

    if s.len() > 0 {
        lemma_sort_records_multiset(s.drop_last());
        lemma_insert_sorted_multiset(sort_records(s.drop_last()), s.last());
        assert(s =~= s.drop_last().push(s.last()));
        assert(s.drop_last().push(s.last()).to_multiset() =~= s.drop_last().to_multiset().insert(
            s.last(),
        ));
    }
}

/// Sequences with equal multisets have the same members.
proof fn lemma_same_multiset_contains(a: Seq<RecordModel>, b: Seq<RecordModel>, y: RecordModel)
    requires
        a.to_multiset() == b.to_multiset(),
        a.contains(y),
    ensures
        b.contains(y),
{
    broadcast use vstd::seq_lib::group_to_multiset_ensures;
    broadcast use vstd::multiset::group_multiset_axioms;

    assert(a.to_multiset().count(y) > 0);
}

/// Inserting into a sorted sequence keeps it sorted.
pub proof fn lemma_insert_sorted_sorted(s: Seq<RecordModel>, x: RecordModel)
    requires
        sorted_by_filename(s),
    ensures
        sorted_by_filename(insert_sorted(s, x)),
    decreases s.len(),
{
    let out = insert_sorted(s, x);
    if s.len() > 0 && rec_le(s[0], x) {
        let tail = s.drop_first();
        assert(sorted_by_filename(tail)) by {
            assert(forall|i: int, j: int|
                0 <= i < j < tail.len() ==> tail[i] == s[i + 1] && tail[j] == s[j + 1]);
        }
        lemma_insert_sorted_sorted(tail, x);
        let t = insert_sorted(tail, x);
        lemma_insert_sorted_multiset(tail, x);
        assert forall|i: int, j: int| 0 <= i < j < out.len() implies rec_le(out[i], out[j]) by {
            if i == 0 {
                let y = t[j - 1];
                assert(out[j] == y);
                assert(t.contains(y));
                assert(t.to_multiset().count(y) > 0) by {
                    broadcast use vstd::seq_lib::group_to_multiset_ensures;

                }
                if y == x {
                    assert(rec_le(s[0], x));
                } else {
                    assert(tail.to_multiset().count(y) > 0) by {
                        broadcast use vstd::multiset::group_multiset_axioms;

                    }
                    assert(tail.contains(y)) by {
                        broadcast use vstd::seq_lib::group_to_multiset_ensures;

                    }
                    let n = choose|n: int| 0 <= n < tail.len() && tail[n] == y;
                    assert(s[n + 1] == y);
                    assert(rec_le(s[0], s[n + 1]));
                }
            } else {
                assert(out[i] == t[i - 1] && out[j] == t[j - 1]);
                assert(rec_le(t[i - 1], t[j - 1]));
            }
        }
    } else {
        assert forall|i: int, j: int| 0 <= i < j < out.len() implies rec_le(out[i], out[j]) by {
            if i == 0 {
                assert(out[0] == x);
                if s.len() > 0 {
                    lemma_chars_le_total(filename_of(s[0].path), filename_of(x.path));
                    assert(rec_le(x, s[0]));
                    assert(out[j] == s[j - 1]);
                    if j > 1 {
                        assert(rec_le(s[0], s[j - 1]));
                        lemma_chars_le_trans(
                            filename_of(x.path),
                            filename_of(s[0].path),
                            filename_of(s[j - 1].path),
                        );
                    }
                }
            } else {
                assert(out[i] == s[i - 1] && out[j] == s[j - 1]);
            }
        }
    }
}

/// Sorting yields ascending file-name order.
pub proof fn lemma_sort_records_sorted(s: Seq<RecordModel>)
    ensures
        sorted_by_filename(sort_records(s)),
    decreases s.len(),
{
    if s.len() > 0 {
        lemma_sort_records_sorted(s.drop_last());
        lemma_insert_sorted_sorted(sort_records(s.drop_last()), s.last());
    }
}

/// Inserting a record that no record of a sorted sequence exceeds puts
/// it at the end.
proof fn lemma_insert_sorted_all_le(s: Seq<RecordModel>, x: RecordModel)
    requires
        forall|k: int| 0 <= k < s.len() ==> rec_le(#[trigger] s[k], x),
    ensures
        insert_sorted(s, x) == s.push(x),
    decreases s.len(),
{
    if s.len() > 0 {
        let tail = s.drop_first();
        assert(forall|k: int| 0 <= k < tail.len() ==> #[trigger] tail[k] == s[k + 1]);
        lemma_insert_sorted_all_le(tail, x);
        assert(insert_sorted(s, x) =~= s.push(x));
    } else {
        assert(insert_sorted(s, x) =~= s.push(x));
    }
}

/// Sorting an already sorted sequence returns it unchanged.
pub proof fn lemma_sort_records_of_sorted(s: Seq<RecordModel>)
    requires
        sorted_by_filename(s),
    ensures
        sort_records(s) == s,
    decreases s.len(),
{
    if s.len() > 0 {
        let head = s.drop_last();
        assert(sorted_by_filename(head));
        lemma_sort_records_of_sorted(head);
        assert(forall|k: int| 0 <= k < head.len() ==> rec_le(#[trigger] head[k], s.last()));
        lemma_insert_sorted_all_le(head, s.last());
        assert(head.push(s.last()) =~= s);
    } else {
        assert(sort_records(s) =~= s);
    }
}

/// Insertion splits the sequence at the first record whose file name
/// exceeds the inserted one.
proof fn lemma_insert_sorted_at(s: Seq<RecordModel>, x: RecordModel, p: int)
    requires
        0 <= p <= s.len(),
        forall|k: int| 0 <= k < p ==> rec_le(#[trigger] s[k], x),
        p < s.len() ==> !rec_le(s[p], x),
    ensures
        insert_sorted(s, x) == s.subrange(0, p) + seq![x] + s.subrange(p, s.len() as int),
    decreases p,
{
    if p == 0 {
        assert(insert_sorted(s, x) =~= s.subrange(0, 0) + seq![x] + s.subrange(0, s.len() as int));
    } else {
        let tail = s.drop_first();
        assert(forall|k: int| 0 <= k < tail.len() ==> #[trigger] tail[k] == s[k + 1]);
        lemma_insert_sorted_at(tail, x, p - 1);
        assert(rec_le(s[0], x));
        assert(insert_sorted(s, x) =~= s.subrange(0, p) + seq![x] + s.subrange(p, s.len() as int));
    }
}

impl KeyedRecord {
    /// An exact copy of this keyed record.
    pub fn duplicate(&self) -> (r: KeyedRecord)
        ensures
            r@ == self@,
    {
        KeyedRecord { record: self.record.duplicate(), key: self.key.clone() }
    }
}

/// Decides the record order: ascending by file name.
fn record_le(a: &KeyedRecord, b: &KeyedRecord) -> (r: bool)
    ensures
        r == rec_le(a@, b@),
{
    let fa = a.record.get_filename();
    let fb = b.record.get_filename();
    str_le(fa.as_str(), fb.as_str())
}

/// The position at which a record is inserted: after every record whose
/// file name does not exceed its own.
fn insert_position(out: &Vec<KeyedRecord>, x: &KeyedRecord) -> (pos: usize)
    ensures
        0 <= pos <= out@.len(),
        forall|k: int| 0 <= k < pos ==> rec_le((#[trigger] out@[k])@, x@),
        pos < out@.len() ==> !rec_le(out@[pos as int]@, x@),
{
    let mut pos: usize = 0;
    while pos < out.len()
        invariant
            0 <= pos <= out@.len(),
            forall|k: int| 0 <= k < pos ==> rec_le((#[trigger] out@[k])@, x@),
        decreases out@.len() - pos,
    {
        if !record_le(&out[pos], x) {
            return pos;
        }
        pos = pos + 1;
    }
    pos
}

/// Sorts records ascending by file name.
pub fn sort_keyed(v: &Vec<KeyedRecord>) -> (r: Vec<KeyedRecord>)
    ensures
        rec_models(r@) == sort_records(rec_models(v@)),
{
    let mut out: Vec<KeyedRecord> = Vec::new();
    let mut i: usize = 0;
    proof {
        assert(rec_models(out@) =~= sort_records(rec_models(v@.take(0))));
    }
    while i < v.len()
        invariant
            0 <= i <= v@.len(),
            rec_models(out@) == sort_records(rec_models(v@.take(i as int))),
        decreases v@.len() - i,
    {
        let x = v[i].duplicate();
        let pos = insert_position(&out, &x);
        let ghost m = rec_models(out@);
        proof {
            assert(forall|k: int| 0 <= k < pos ==> rec_le(#[trigger] m[k], x@));
            assert(pos < m.len() ==> !rec_le(m[pos as int], x@));
            lemma_insert_sorted_at(m, x@, pos as int);
        }
        out.insert(pos, x);
        proof {
            assert(rec_models(out@) =~= m.subrange(0, pos as int) + seq![x@] + m.subrange(
                pos as int,
                m.len() as int,
            ));
            assert(rec_models(v@.take(i as int + 1)).drop_last() =~= rec_models(
                v@.take(i as int),
            ));
            assert(rec_models(v@.take(i as int + 1)).last() == v@[i as int]@);
            assert(sort_records(rec_models(v@.take(i as int + 1))) == insert_sorted(
                sort_records(rec_models(v@.take(i as int))),
                v@[i as int]@,
            ));
        }
        i = i + 1;
    }
    proof {
        assert(v@.take(v@.len() as int) =~= v@);
    }
    out
}

/// Decides whether some record of the table carries the given key.
fn contains_key(existing: &Vec<KeyedRecord>, key: &String) -> (r: bool)
    ensures
        r == has_key(rec_models(existing@), key@),
{
    let mut i: usize = 0;
    while i < existing.len()
        invariant
            0 <= i <= existing@.len(),
            forall|k: int| 0 <= k < i ==> (#[trigger] existing@[k])@.key != key@,
        decreases existing@.len() - i,
    {
        if existing[i].key == *key {
            proof {
                assert(rec_models(existing@)[i as int].key == key@);
            }
            return true;
        }
        i = i + 1;
    }
    proof {
        assert(forall|k: int|
            0 <= k < existing@.len() ==> #[trigger] rec_models(existing@)[k].key != key@);
    }
    false
}

/// Reconciles a loaded caption table with the discovered images: every
/// loaded record is kept unchanged, every image whose canonical path is
/// not in the table yet is appended with an empty caption, and the whole
/// is sorted ascending by file name.
pub fn reconcile(existing: &Vec<KeyedRecord>, discovered: &Vec<DiscoveredImage>) -> (r: Vec<
    KeyedRecord,
>)
    ensures
        rec_models(r@) == reconcile_spec(rec_models(existing@), img_models(discovered@)),
        sorted_by_filename(rec_models(r@)),
{
    let ghost em = rec_models(existing@);
    let mut combined: Vec<KeyedRecord> = Vec::new();
    let mut i: usize = 0;
    while i < existing.len()
        invariant
            0 <= i <= existing@.len(),
            combined@.len() == i,
            forall|k: int| 0 <= k < i ==> (#[trigger] combined@[k])@ == existing@[k]@,
        decreases existing@.len() - i,
    {
        combined.push(existing[i].duplicate());
        i = i + 1;
    }
    proof {
        assert(rec_models(combined@) =~= em);
        assert(img_models(discovered@.take(0)) =~= Seq::<ImageModel>::empty());
        assert(fresh_records(em, img_models(discovered@.take(0)))
            =~= Seq::<RecordModel>::empty());
        assert(rec_models(combined@) =~= em + fresh_records(em, img_models(discovered@.take(0))));
    }
    let mut j: usize = 0;
    while j < discovered.len()
        invariant
            0 <= j <= discovered@.len(),
            em == rec_models(existing@),
            rec_models(combined@) == em + fresh_records(em, img_models(discovered@.take(j as int))),
        decreases discovered@.len() - j,
    {
        let ghost dm_pre = img_models(discovered@.take(j as int));
        let ghost dj = discovered@[j as int]@;
        proof {
            assert(img_models(discovered@.take(j as int + 1)) =~= dm_pre.push(dj));
            lemma_filter_push(dm_pre, |x: ImageModel| !has_key(em, x.key), dj);
        }
        let absent = !contains_key(existing, &discovered[j].key);
        if absent {
            let ghost pre = rec_models(combined@);
            let fresh = KeyedRecord {
                record: CaptionRecord::new(&discovered[j].path, String::new()),
                key: discovered[j].key.clone(),
            };
            proof {
                assert(fresh@ == fresh_record(dj));
            }
            combined.push(fresh);
            proof {
                assert(rec_models(combined@) =~= pre.push(fresh_record(dj)));
                assert(fresh_records(em, img_models(discovered@.take(j as int + 1))) =~=
                    fresh_records(em, dm_pre).push(fresh_record(dj)));
                assert(rec_models(combined@) =~= em + fresh_records(
                    em,
                    img_models(discovered@.take(j as int + 1)),
                ));
            }
        } else {
            proof {
                assert(fresh_records(em, img_models(discovered@.take(j as int + 1)))
                    =~= fresh_records(em, dm_pre));
            }
        }
        j = j + 1;
    }
    proof {
        assert(discovered@.take(discovered@.len() as int) =~= discovered@);
    }
    let r = sort_keyed(&combined);
    proof {
        lemma_sort_records_sorted(rec_models(combined@));
    }
    r
}

/// The records of a keyed table, in order, without their keys.
pub fn strip_keys(keyed: &Vec<KeyedRecord>) -> (r: Vec<CaptionRecord>)
    ensures
        r@.len() == keyed@.len(),
        forall|k: int|
            0 <= k < keyed@.len() ==> (#[trigger] r@[k]).image_path@ == keyed@[k]@.path
                && r@[k].caption@ == keyed@[k]@.caption,
{
    let mut out: Vec<CaptionRecord> = Vec::new();
    let mut i: usize = 0;
    while i < keyed.len()
        invariant
            0 <= i <= keyed@.len(),
            out@.len() == i,
            forall|k: int|
                0 <= k < i ==> (#[trigger] out@[k]).image_path@ == keyed@[k]@.path
                    && out@[k].caption@ == keyed@[k]@.caption,
        decreases keyed@.len() - i,
    {
        out.push(keyed[i].record.duplicate());
        i = i + 1;
    }
    out
}

/// Reconciliation preserves existing captions: every loaded record
/// appears unchanged in the result, and everything else in the result is
/// an empty-caption record of a discovered image. The result is, as a
/// multiset, exactly the loaded records plus the fresh ones.
pub proof fn lemma_reconcile_preserves_existing(e: Seq<RecordModel>, d: Seq<ImageModel>)
    ensures
        reconcile_spec(e, d).to_multiset() == (e + fresh_records(e, d)).to_multiset(),
        forall|i: int| 0 <= i < e.len() ==> reconcile_spec(e, d).contains(#[trigger] e[i]),
        forall|y: RecordModel| #[trigger]
            reconcile_spec(e, d).contains(y) ==> e.contains(y) || (y.caption
                == Seq::<char>::empty() && exists|j: int|
                0 <= j < d.len() && y == fresh_record(#[trigger] d[j])),
{
    let c = e + fresh_records(e, d);
    let r = reconcile_spec(e, d);
    lemma_sort_records_multiset(c);
    assert forall|i: int| 0 <= i < e.len() implies r.contains(#[trigger] e[i]) by {
        assert(c[i] == e[i]);
        assert(c.contains(e[i]));
        lemma_same_multiset_contains(c, r, e[i]);
    }
    assert forall|y: RecordModel| #[trigger] r.contains(y) implies e.contains(y) || (y.caption
        == Seq::<char>::empty() && exists|j: int|
        0 <= j < d.len() && y == fresh_record(#[trigger] d[j])) by {
        lemma_same_multiset_contains(r, c, y);
        let m = choose|m: int| 0 <= m < c.len() && c[m] == y;
        if m < e.len() {
            assert(e[m] == y);
            assert(e.contains(y));
        } else {
            let pred = |x: ImageModel| !has_key(e, x.key);
            let filtered = d.filter(pred);
            let idx = m - e.len();
            assert(fresh_records(e, d)[idx] == y);
            assert(y == fresh_record(filtered[idx]));
            crate::chars::lemma_filter_elem_from(d, pred, idx);
            let j = choose|j: int| 0 <= j < d.len() && d[j] == filtered[idx];
            assert(y == fresh_record(d[j]));
        }
    }
}

/// Whatever order the table and the images arrive in, reconciliation
/// yields ascending file-name order.
pub proof fn lemma_reconcile_sorted(e: Seq<RecordModel>, d: Seq<ImageModel>)
    ensures
        sorted_by_filename(reconcile_spec(e, d)),
{
    lemma_sort_records_sorted(e + fresh_records(e, d));
}

/// Reconciliation is idempotent: reconciling an already reconciled table
/// against the same discovered images returns it unchanged.
pub proof fn lemma_reconcile_idempotent(e: Seq<RecordModel>, d: Seq<ImageModel>)
    ensures
        reconcile_spec(reconcile_spec(e, d), d) == reconcile_spec(e, d),
{
    let c = e + fresh_records(e, d);
    let r = reconcile_spec(e, d);
    lemma_sort_records_multiset(c);
    lemma_sort_records_sorted(c);
    let pred1 = |x: ImageModel| !has_key(e, x.key);
    let pred2 = |x: ImageModel| !has_key(r, x.key);
    assert forall|j: int| 0 <= j < d.len() implies has_key(r, (#[trigger] d[j]).key) by {
        if has_key(e, d[j].key) {
            let i = choose|i: int| 0 <= i < e.len() && e[i].key == d[j].key;
            assert(c[i] == e[i]);
            assert(c.contains(e[i]));
            lemma_same_multiset_contains(c, r, e[i]);
            let m = choose|m: int| 0 <= m < r.len() && r[m] == e[i];
            assert(r[m].key == d[j].key);
        } else {
            assert(pred1(d[j]));
            d.lemma_filter_contains(pred1, j);
            let filtered = d.filter(pred1);
            let fi = choose|fi: int| 0 <= fi < filtered.len() && filtered[fi] == d[j];
            let fr = fresh_records(e, d);
            assert(fr[fi] == fresh_record(d[j]));
            assert(c[e.len() + fi] == fr[fi]);
            assert(c.contains(fr[fi]));
            lemma_same_multiset_contains(c, r, fr[fi]);
            let m = choose|m: int| 0 <= m < r.len() && r[m] == fr[fi];
            assert(r[m].key == d[j].key);
        }
    }
    assert forall|j: int| 0 <= j < d.len() implies !pred2(d[j]) by {
        assert(has_key(r, d[j].key));
    }
    lemma_filter_all_false(d, pred2);
    assert(fresh_records(r, d) =~= Seq::<RecordModel>::empty());
    assert(r + fresh_records(r, d) =~= r);
    lemma_sort_records_of_sorted(r);
}

} // verus!
