//! The aggregator: a table from canonical key to sentence record, built
//! incrementally over one run. A record keeps the first-seen original text,
//! the number of occurrences, and the provenance of those occurrences.

use crate::normalize::{canonical_key, normalize};
use crate::scanner::{fragments_of, scan_document};
use crate::text::{str_eq, str_views, trim, trimmed};
use vstd::prelude::*;

verus! {

/// One record per distinct canonical key.
pub struct Sentence {
    /// The first-seen original fragment, whitespace-trimmed, with its case
    /// and punctuation preserved.
    pub text: String,
    /// The number of occurrences seen across all processed input.
    pub count: u64,
    /// The contributing source identifiers in processing order, with
    /// consecutive repeats collapsed.
    pub provenance: Vec<String>,
}

/// The mathematical value of one record.
#[verifier::ext_equal]
pub struct SentenceView {
    pub text: Seq<char>,
    pub count: nat,
    pub provenance: Seq<Seq<char>>,
}

impl View for Sentence {
    type V = SentenceView;

    open spec fn view(&self) -> SentenceView {
        SentenceView {
            text: self.text@,
            count: self.count as nat,
            provenance: str_views(self.provenance@),
        }
    }
}

/// A record before its first occurrence is counted.
pub open spec fn fresh_record(text: Seq<char>) -> SentenceView {
    SentenceView { text, count: 0, provenance: Seq::empty() }
}

/// One occurrence from `src` folded into a record: the count grows by one,
/// and `src` is appended to the provenance only when it differs from the
/// last entry already recorded.
pub open spec fn pushed(r: SentenceView, src: Seq<char>) -> SentenceView {
    SentenceView {
        text: r.text,
        count: (r.count + 1) as nat,
        provenance: if r.provenance.len() == 0 || r.provenance.last() != src {
            r.provenance.push(src)
        } else {
            r.provenance
        },
    }
}

/// A record is well formed: at least one occurrence, and no two consecutive
/// equal provenance entries.
pub open spec fn record_ok(r: SentenceView) -> bool {
    &&& r.count >= 1
    &&& forall|i: int| 0 < i < r.provenance.len() ==> #[trigger] r.provenance[i] != r.provenance[i - 1]
}

impl Sentence {
    /// Folds one occurrence from source `s` into this record.
    pub fn push(&mut self, s: &str)
        requires
            old(self)@.count < u64::MAX,
        ensures
            final(self)@ == pushed(old(self)@, s@),
    {
        let n = self.provenance.len();
        if n == 0 {
            self.provenance.push(s.to_owned());
            proof {
                assert(str_views(self.provenance@) =~= old(self)@.provenance.push(s@));
            }
        } else if !str_eq(self.provenance[n - 1].as_str(), s) {
            proof {
                assert(old(self)@.provenance.last() == self.provenance@[n - 1]@);
            }
            self.provenance.push(s.to_owned());
            proof {
                assert(str_views(self.provenance@) =~= old(self)@.provenance.push(s@));
            }
        } else {
            proof {
                assert(old(self)@.provenance.last() == self.provenance@[n - 1]@);
            }
        }
        self.count = self.count + 1;
        proof {
            assert(final(self)@ =~= pushed(old(self)@, s@));
        }
    }
}

/// The mathematical value of the table: the key and record of each entry, in
/// first-seen order.
pub type TableView = Seq<(Seq<char>, SentenceView)>;

/// The first index whose key is `k`, or -1 when `k` is absent.
pub open spec fn find_key(t: TableView, k: Seq<char>) -> int
    decreases t.len(),
{
    if t.len() == 0 {
        -1
    } else if t.first().0 == k {
        0
    } else if find_key(t.drop_first(), k) < 0 {
        -1
    } else {
        find_key(t.drop_first(), k) + 1
    }
}

/// `find_key` returns the first index holding `k`, or -1 when no index does.
pub proof fn lemma_find_key_is_first(t: TableView, k: Seq<char>)
    ensures
        -1 <= find_key(t, k) < t.len(),
        find_key(t, k) >= 0 ==> t[find_key(t, k)].0 == k,
        find_key(t, k) >= 0 ==> forall|j: int| 0 <= j < find_key(t, k) ==> t[j].0 != k,
        find_key(t, k) == -1 ==> forall|j: int| 0 <= j < t.len() ==> t[j].0 != k,
    decreases t.len(),
{
    if t.len() > 0 && t.first().0 != k {
        lemma_find_key_is_first(t.drop_first(), k);
        let f1 = find_key(t.drop_first(), k);
        if f1 >= 0 {
            assert forall|j: int| 0 <= j < find_key(t, k) implies t[j].0 != k by {
                if j > 0 {
                    assert(t.drop_first()[j - 1].0 != k);
                    assert(t.drop_first()[j - 1] == t[j]);
                }
            }
        } else {
            assert forall|j: int| 0 <= j < t.len() implies t[j].0 != k by {
                if j > 0 {
                    assert(t.drop_first()[j - 1].0 != k);
                    assert(t.drop_first()[j - 1] == t[j]);
                }
            }
        }
    }
}

/// The converse: the first index holding `k` is what `find_key` returns.
pub proof fn lemma_find_key_at(t: TableView, k: Seq<char>, i: int)
    requires
        0 <= i < t.len(),
        t[i].0 == k,
        forall|j: int| 0 <= j < i ==> t[j].0 != k,
    ensures
        find_key(t, k) == i,
{
    lemma_find_key_is_first(t, k);
}

/// `find_key` returns -1 exactly when no entry holds `k`.
pub proof fn lemma_find_key_absent(t: TableView, k: Seq<char>)
    requires
        forall|j: int| 0 <= j < t.len() ==> t[j].0 != k,
    ensures
        find_key(t, k) == -1,
{
    lemma_find_key_is_first(t, k);
}

/// Keys are distinct and every record is well formed.
pub open spec fn table_ok(t: TableView) -> bool {
    &&& forall|i: int, j: int| 0 <= i < j < t.len() ==> t[i].0 != t[j].0
    &&& forall|i: int| 0 <= i < t.len() ==> record_ok(#[trigger] t[i].1)
}

/// One fragment from `src` folded into the table: the fragment's canonical
/// key is computed; an absent key appends a fresh record whose text is the
/// trimmed fragment; then one occurrence is folded into the key's record.
pub open spec fn ingested(
    t: TableView,
    src: Seq<char>,
    frag: Seq<char>,
    fold_case: bool,
) -> TableView {
    let k = canonical_key(frag, fold_case);
    let i = find_key(t, k);
    if i < 0 {
        t.push((k, pushed(fresh_record(trimmed(frag)), src)))
    } else {
        t.update(i, (k, pushed(t[i].1, src)))
    }
}

/// The table from canonical key to sentence record, for one run.
pub struct AggregationTable {
    entries: Vec<(String, Sentence)>,
    total: u64,
}

impl View for AggregationTable {
    type V = TableView;

    closed spec fn view(&self) -> TableView {
        self.entries@.map_values(|e: (String, Sentence)| (e.0@, e.1@))
    }
}

impl AggregationTable {
    /// The number of fragments ingested so far.
    pub closed spec fn ingest_count(self) -> nat {
        self.total as nat
    }

    /// Table invariant: distinct keys, well-formed records, and no record
    /// counting more occurrences than were ingested.
    pub open spec fn wf(self) -> bool {
        &&& table_ok(self@)
        &&& forall|i: int| 0 <= i < self@.len() ==> #[trigger] self@[i].1.count
            <= self.ingest_count()
    }

    /// An empty table.
    pub fn new() -> (t: Self)
        ensures
            t@ == Seq::<(Seq<char>, SentenceView)>::empty(),
            t.wf(),
            t.ingest_count() == 0,
    {
        let t = AggregationTable { entries: Vec::new(), total: 0 };
        proof {
            assert(t@ =~= Seq::<(Seq<char>, SentenceView)>::empty());
        }
        t
    }

    /// The number of distinct records.
    pub fn len(&self) -> (n: usize)
        ensures
            n == self@.len(),
    {
        self.entries.len()
    }

    /// The number of fragments ingested so far.
    pub fn ingests(&self) -> (n: u64)
        ensures
            n == self.ingest_count(),
    {
        self.total
    }

    /// The occurrence counter is one machine word.
    pub proof fn lemma_ingest_count_bounded(self)
        ensures
            self.ingest_count() <= u64::MAX,
    {
    }

    fn find(&self, key: &str) -> (r: Option<usize>)
        ensures
            match r {
                Some(i) => find_key(self@, key@) == i as int,
                None => find_key(self@, key@) == -1,
            },
    {
        let mut i: usize = 0;
        while i < self.entries.len()
            invariant
                i <= self@.len(),
                self@.len() == self.entries@.len(),
                forall|j: int| 0 <= j < i ==> self@[j].0 != key@,
            decreases self@.len() - i,
        {
            if str_eq(self.entries[i].0.as_str(), key) {
                proof {
                    lemma_find_key_at(self@, key@, i as int);
                }
                return Some(i);
            }
            i += 1;
        }
        proof {
            lemma_find_key_absent(self@, key@);
        }
        None
    }

    /// Folds one fragment from `source` into the table.
    pub fn ingest(&mut self, source: &str, fragment: &str, fold_case: bool)
        requires
            old(self).wf(),
            old(self).ingest_count() < u64::MAX,
        ensures
            final(self).wf(),
            final(self)@ == ingested(old(self)@, source@, fragment@, fold_case),
            final(self).ingest_count() == old(self).ingest_count() + 1,
    {
        let key = normalize(fragment, fold_case);
        let ghost t0 = old(self)@;
        let ghost k = canonical_key(fragment@, fold_case);
        match self.find(key.as_str()) {
            Some(i) => {
                proof {
                    lemma_find_key_is_first(t0, k);
                }
                let mut e = self.entries.remove(i);
                e.1.push(source);
                self.entries.insert(i, e);
                self.total = self.total + 1;
                proof {
                    assert(self@ =~= t0.update(i as int, (k, pushed(t0[i as int].1, source@))));
                    lemma_pushed_record_ok(t0[i as int].1, source@);
                }
            },
            None => {
                let text = trim(fragment);
                let mut rec = Sentence { text, count: 0, provenance: Vec::new() };
                proof {
                    assert(rec@ =~= fresh_record(trimmed(fragment@)));
                }
                rec.push(source);
                self.entries.push((key, rec));
                self.total = self.total + 1;
                proof {
                    lemma_find_key_is_first(t0, k);
                    assert(self@ =~= t0.push(
                        (k, pushed(fresh_record(trimmed(fragment@)), source@)),
                    ));
                    lemma_pushed_record_ok(fresh_record(trimmed(fragment@)), source@);
                }
            },
        }
    }
}

/// The views of a sequence of records.
pub open spec fn sentence_views(rs: Seq<Sentence>) -> Seq<SentenceView> {
    rs.map_values(|s: Sentence| s@)
}

/// The records of a table, in first-seen order.
pub open spec fn record_views(t: TableView) -> Seq<SentenceView> {
    t.map_values(|e: (Seq<char>, SentenceView)| e.1)
}

/// The table after folding in every fragment of `frags`, in order, all from
/// source `src`.
pub open spec fn ingest_all(
    t: TableView,
    src: Seq<char>,
    frags: Seq<Seq<char>>,
    fold_case: bool,
) -> TableView
    decreases frags.len(),
{
    if frags.len() == 0 {
        t
    } else {
        ingest_all(ingested(t, src, frags.first(), fold_case), src, frags.drop_first(), fold_case)
    }
}

impl AggregationTable {
    /// Consumes the table and hands its records out in first-seen order.
    pub fn into_records(self) -> (records: Vec<Sentence>)
        ensures
            sentence_views(records@) == record_views(self@),
    {
        let ghost orig = self@;
        let mut entries = self.entries;
        let mut out: Vec<Sentence> = Vec::new();
        proof {
            assert(sentence_views(out@) + entries@.map_values(|e: (String, Sentence)| e.1@)
                =~= record_views(orig));
        }
        while entries.len() > 0
            invariant
                sentence_views(out@) + entries@.map_values(|e: (String, Sentence)| e.1@)
                    == record_views(orig),
            decreases entries@.len(),
        {
            let ghost eo = entries@;
            let ghost old_out = out@;
            let e = entries.remove(0);
            out.push(e.1);
            proof {
                assert(entries@ =~= eo.drop_first());
                assert(sentence_views(out@) =~= sentence_views(old_out).push(eo[0].1@));
                assert(sentence_views(old_out).push(eo[0].1@) + entries@.map_values(
                    |e: (String, Sentence)| e.1@,
                ) =~= sentence_views(old_out) + eo.map_values(|e: (String, Sentence)| e.1@));
            }
        }
        proof {
            assert(sentence_views(out@) + entries@.map_values(|e: (String, Sentence)| e.1@)
                =~= sentence_views(out@));
        }
        out
    }

    /// Folds the fragments into the table, in order, all from `source`.
    pub fn ingest_fragments(&mut self, source: &str, frags: &Vec<String>, fold_case: bool)
        requires
            old(self).wf(),
            old(self).ingest_count() + frags@.len() <= u64::MAX,
        ensures
            final(self).wf(),
            final(self)@ == ingest_all(old(self)@, source@, str_views(frags@), fold_case),
            final(self).ingest_count() == old(self).ingest_count() + frags@.len(),
    {
        let ghost fv = str_views(frags@);
        let mut i: usize = 0;
        proof {
            assert(fv.skip(0) =~= fv);
        }
        while i < frags.len()
            invariant
                i <= frags@.len(),
                fv == str_views(frags@),
                fv.len() == frags@.len(),
                self.wf(),
                self.ingest_count() == old(self).ingest_count() + i,
                old(self).ingest_count() + frags@.len() <= u64::MAX,
                ingest_all(self@, source@, fv.skip(i as int), fold_case) == ingest_all(
                    old(self)@,
                    source@,
                    fv,
                    fold_case,
                ),
            decreases frags@.len() - i,
        {
            proof {
                assert(fv.skip(i as int).first() == frags@[i as int]@);
                assert(fv.skip(i as int).drop_first() =~= fv.skip(i as int + 1));
            }
            self.ingest(source, frags[i].as_str(), fold_case);
            i += 1;
        }
        proof {
            assert(fv.skip(frags@.len() as int) =~= Seq::<Seq<char>>::empty());
        }
    }

    /// Scans one document and folds its candidate fragments into the table.
    pub fn process_document(&mut self, source: &str, lines: &Vec<String>, fold_case: bool)
        requires
            old(self).wf(),
            old(self).ingest_count() + fragments_of(str_views(lines@)).len() <= u64::MAX,
        ensures
            final(self).wf(),
            final(self)@ == ingest_all(
                old(self)@,
                source@,
                fragments_of(str_views(lines@)),
                fold_case,
            ),
            final(self).ingest_count() == old(self).ingest_count() + fragments_of(
                str_views(lines@),
            ).len(),
    {
        let frags = scan_document(lines);
        proof {
            assert(str_views(frags@).len() == frags@.len());
        }
        self.ingest_fragments(source, &frags, fold_case);
    }

    /// Like `process_document`, but checks at run time that the occurrence
    /// counter has room for the document's fragments; on `false` the table
    /// is unchanged.
    pub fn try_process_document(&mut self, source: &str, lines: &Vec<String>, fold_case: bool) -> (ok:
        bool)
        requires
            old(self).wf(),
        ensures
            final(self).wf(),
            ok == (old(self).ingest_count() + fragments_of(str_views(lines@)).len() <= u64::MAX),
            ok ==> final(self)@ == ingest_all(
                old(self)@,
                source@,
                fragments_of(str_views(lines@)),
                fold_case,
            ) && final(self).ingest_count() == old(self).ingest_count() + fragments_of(
                str_views(lines@),
            ).len(),
            !ok ==> final(self)@ == old(self)@ && final(self).ingest_count() == old(
                self,
            ).ingest_count(),
    {
        let frags = scan_document(lines);
        proof {
            assert(str_views(frags@).len() == frags@.len());
        }
        let n = frags.len() as u64;
        if n <= u64::MAX - self.total {
            self.ingest_fragments(source, &frags, fold_case);
            true
        } else {
            false
        }
    }
}

/// One ingest step, seen from an arbitrary key `k`: the record under the
/// fragment's own canonical key gains one occurrence (a fresh record when
/// that key is new), and the record under every other key is untouched.
pub proof fn lemma_ingested_find(
    t: TableView,
    src: Seq<char>,
    f: Seq<char>,
    k: Seq<char>,
    fold_case: bool,
)
    ensures
        ({
            let t2 = ingested(t, src, f, fold_case);
            let kk = canonical_key(f, fold_case);
            &&& (k == kk && find_key(t, k) >= 0 ==> find_key(t2, k) == find_key(t, k) && t2[
                find_key(t2, k)
            ].1 == pushed(t[find_key(t, k)].1, src))
            &&& (k == kk && find_key(t, k) < 0 ==> find_key(t2, k) == t.len() && t2[
                find_key(t2, k)
            ].1 == pushed(fresh_record(trimmed(f)), src))
            &&& (k != kk ==> find_key(t2, k) == find_key(t, k) && (find_key(t, k) >= 0 ==> t2[
                find_key(t, k)
            ].1 == t[find_key(t, k)].1))
        }),
{
    let kk = canonical_key(f, fold_case);
    let i = find_key(t, kk);
    lemma_find_key_is_first(t, kk);
    lemma_find_key_is_first(t, k);
    let t2 = ingested(t, src, f, fold_case);
    if i < 0 {
        if k == kk {
            lemma_find_key_at(t2, k, t.len() as int);
        } else {
            if find_key(t, k) >= 0 {
                lemma_find_key_at(t2, k, find_key(t, k));
            } else {
                lemma_find_key_absent(t2, k);
            }
        }
    } else {
        assert(forall|j: int| 0 <= j < t.len() ==> t2[j].0 == t[j].0);
        if find_key(t, k) >= 0 {
            lemma_find_key_at(t2, k, find_key(t, k));
        } else {
            lemma_find_key_absent(t2, k);
        }
    }
}

/// A table never holds two records for one canonical key, so fragments with
/// equal keys always fold into the same record.
pub proof fn lemma_one_record_per_key(t: TableView, i: int, j: int)
    requires
        table_ok(t),
        0 <= i < t.len(),
        0 <= j < t.len(),
        t[i].0 == t[j].0,
    ensures
        i == j,
{
}

/// One source-tagged occurrence of a run: which source contributed which raw
/// fragment.
pub type Occurrence = (Seq<char>, Seq<char>);

/// The table after folding in every occurrence of a whole run, in order,
/// across all its documents.
pub open spec fn ingest_run(t: TableView, ops: Seq<Occurrence>, fold_case: bool) -> TableView
    decreases ops.len(),
{
    if ops.len() == 0 {
        t
    } else {
        ingest_run(ingested(t, ops.first().0, ops.first().1, fold_case), ops.drop_first(), fold_case)
    }
}

/// The number of occurrences in `ops` whose fragment has canonical key `k`.
pub open spec fn run_matching_count(ops: Seq<Occurrence>, k: Seq<char>, fold_case: bool) -> nat
    decreases ops.len(),
{
    if ops.len() == 0 {
        0
    } else {
        (if canonical_key(ops.first().1, fold_case) == k {
            1nat
        } else {
            0nat
        }) + run_matching_count(ops.drop_first(), k, fold_case)
    }
}

/// The fragments of one document, each tagged with the document's source.
pub open spec fn tag_source(src: Seq<char>, frags: Seq<Seq<char>>) -> Seq<Occurrence> {
    frags.map_values(|f: Seq<char>| (src, f))
}

/// Ingesting a document's fragments is a run whose occurrences all name that
/// document as source.
pub proof fn lemma_ingest_all_is_run(
    t: TableView,
    src: Seq<char>,
    frags: Seq<Seq<char>>,
    fold_case: bool,
)
    ensures
        ingest_all(t, src, frags, fold_case) == ingest_run(t, tag_source(src, frags), fold_case),
    decreases frags.len(),
{
    let ops = tag_source(src, frags);
    if frags.len() > 0 {
        let t1 = ingested(t, src, frags.first(), fold_case);
        lemma_ingest_all_is_run(t1, src, frags.drop_first(), fold_case);
        assert(ops.drop_first() =~= tag_source(src, frags.drop_first()));
    }
}

/// The occurrences of a whole run over `docs`, in processing order: each
/// document's candidate fragments, tagged with the document's source.
pub open spec fn run_ops(docs: Seq<(Seq<char>, Seq<Seq<char>>)>) -> Seq<Occurrence>
    decreases docs.len(),
{
    if docs.len() == 0 {
        Seq::empty()
    } else {
        tag_source(docs.first().0, fragments_of(docs.first().1)) + run_ops(docs.drop_first())
    }
}

/// Runs compose: ingesting `a` and then `b` is ingesting `a + b`.
pub proof fn lemma_ingest_run_concat(
    t: TableView,
    a: Seq<Occurrence>,
    b: Seq<Occurrence>,
    fold_case: bool,
)
    ensures
        ingest_run(t, a + b, fold_case) == ingest_run(ingest_run(t, a, fold_case), b, fold_case),
    decreases a.len(),
{
    if a.len() == 0 {
        assert(a + b =~= b);
    } else {
        assert((a + b).first() == a.first());
        assert((a + b).drop_first() =~= a.drop_first() + b);
        lemma_ingest_run_concat(
            ingested(t, a.first().0, a.first().1, fold_case),
            a.drop_first(),
            b,
            fold_case,
        );
    }
}

/// The occurrences of concatenated document runs are the concatenated
/// occurrences.
pub proof fn lemma_run_ops_concat(
    a: Seq<(Seq<char>, Seq<Seq<char>>)>,
    b: Seq<(Seq<char>, Seq<Seq<char>>)>,
)
    ensures
        run_ops(a + b) == run_ops(a) + run_ops(b),
    decreases a.len(),
{
    if a.len() == 0 {
        assert(a + b =~= b);
        assert(run_ops(a) + run_ops(b) =~= run_ops(b));
    } else {
        assert((a + b).first() == a.first());
        assert((a + b).drop_first() =~= a.drop_first() + b);
        lemma_run_ops_concat(a.drop_first(), b);
        assert(tag_source(a.first().0, fragments_of(a.first().1)) + (run_ops(a.drop_first())
            + run_ops(b)) =~= (tag_source(a.first().0, fragments_of(a.first().1)) + run_ops(
            a.drop_first(),
        )) + run_ops(b));
    }
}

/// All fragments with one canonical key fold into the same, single record:
/// after a whole run, the count recorded under key `k` has grown by exactly
/// the number of ingested fragments whose canonical key is `k`, whichever
/// documents they came from; a key that was absent and that no fragment
/// produced stays absent.
pub proof fn lemma_count_equals_matching_fragments(
    t: TableView,
    ops: Seq<Occurrence>,
    k: Seq<char>,
    fold_case: bool,
)
    ensures
        ({
            let t2 = ingest_run(t, ops, fold_case);
            let m = run_matching_count(ops, k, fold_case);
            &&& (find_key(t, k) >= 0 ==> find_key(t2, k) >= 0 && t2[find_key(t2, k)].1.count == t[
                find_key(t, k)
            ].1.count + m)
            &&& (find_key(t, k) < 0 && m > 0 ==> find_key(t2, k) >= 0 && t2[find_key(t2, k)].1.count
                == m)
            &&& (find_key(t, k) < 0 && m == 0 ==> find_key(t2, k) < 0)
        }),
    decreases ops.len(),
{
    if ops.len() > 0 {
        let t1 = ingested(t, ops.first().0, ops.first().1, fold_case);
        lemma_ingested_find(t, ops.first().0, ops.first().1, k, fold_case);
        lemma_count_equals_matching_fragments(t1, ops.drop_first(), k, fold_case);
    }
}

/// One ingest preserves the table invariant: keys stay distinct and every
/// record stays well formed.
pub proof fn lemma_ingested_table_ok(t: TableView, src: Seq<char>, f: Seq<char>, fold_case: bool)
    requires
        table_ok(t),
    ensures
        table_ok(ingested(t, src, f, fold_case)),
{
    let kk = canonical_key(f, fold_case);
    let i = find_key(t, kk);
    lemma_find_key_is_first(t, kk);
    let t2 = ingested(t, src, f, fold_case);
    if i < 0 {
        lemma_pushed_record_ok(fresh_record(trimmed(f)), src);
        assert(forall|a: int, b: int| 0 <= a < b < t2.len() ==> t2[a].0 != t2[b].0);
    } else {
        lemma_pushed_record_ok(t[i].1, src);
    }
}

/// A whole run preserves the table invariant, so every record of a run
/// counts at least one occurrence and records no source twice in a row.
pub proof fn lemma_run_preserves_table_ok(t: TableView, ops: Seq<Occurrence>, fold_case: bool)
    requires
        table_ok(t),
    ensures
        table_ok(ingest_run(t, ops, fold_case)),
    decreases ops.len(),
{
    if ops.len() > 0 {
        lemma_ingested_table_ok(t, ops.first().0, ops.first().1, fold_case);
        lemma_run_preserves_table_ok(
            ingested(t, ops.first().0, ops.first().1, fold_case),
            ops.drop_first(),
            fold_case,
        );
    }
}

/// Folding a fragment and an exact duplicate from the same source into a
/// record counts both occurrences but records the source only once.
pub proof fn lemma_same_source_collapses(r: SentenceView, src: Seq<char>)
    ensures
        pushed(pushed(r, src), src).provenance == pushed(r, src).provenance,
        pushed(pushed(r, src), src).count == r.count + 2,
{
    let p1 = pushed(r, src);
    assert(p1.provenance.len() > 0 && p1.provenance.last() == src);
}

/// Folding an occurrence into a well-formed or fresh record keeps the
/// provenance free of consecutive repeats.
proof fn lemma_pushed_record_ok(r: SentenceView, src: Seq<char>)
    requires
        record_ok(r) || r == fresh_record(r.text),
    ensures
        record_ok(pushed(r, src)),
{
    let p = pushed(r, src).provenance;
    if r.provenance.len() == 0 || r.provenance.last() != src {
        assert(forall|i: int| 0 < i < p.len() - 1 ==> #[trigger] p[i] != p[i - 1]);
    }
}

} // verus!
