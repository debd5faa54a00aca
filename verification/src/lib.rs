//! Finds sentences that recur verbatim (ignoring case and punctuation)
//! across or within plain-text documents.
//!
//! Each document is an ordered sequence of lines. A two-state scanner skips
//! front matter until the literal line `Page`, then splits body lines on `.`
//! into fragments; fragments longer than 40 characters are candidates. A
//! normalizer turns each candidate into a canonical key, an aggregation
//! table counts occurrences per key and records which sources contributed
//! them, and a reporter renders the records sorted by descending count.

use vstd::prelude::*;

pub mod aggregate;
pub mod normalize;
pub mod report;
pub mod scanner;
pub mod text;

verus! {

/// Policy switches for the pipeline.
///
/// `fold_case` makes the canonical key case-insensitive. `track_provenance`
/// includes the contributing source names in each rendered line.
/// `only_show_repeated` restricts the report to records seen more than once,
/// when any such record exists.
#[derive(Clone, Copy)]
pub struct Config {
    pub fold_case: bool,
    pub track_provenance: bool,
    pub only_show_repeated: bool,
}

/// The mathematical value of a run's input: each document's source
/// identifier and lines.
pub open spec fn docs_model(docs: Seq<(String, Vec<String>)>) -> Seq<(Seq<char>, Seq<Seq<char>>)> {
    docs.map_values(|d: (String, Vec<String>)| (d.0@, crate::text::str_views(d.1@)))
}

/// The whole pipeline over a run's documents: scans each document, folds all
/// candidate fragments into one table, and renders the sorted report. `None`
/// only when the run holds more fragment occurrences than the occurrence
/// counter can hold.
pub fn run_report(docs: &Vec<(String, Vec<String>)>, cfg: &Config) -> (r: Option<Vec<String>>)
    ensures
        ({
            let ops = crate::aggregate::run_ops(docs_model(docs@));
            &&& (r is Some <==> ops.len() <= u64::MAX)
            &&& match r {
                Some(lines) => exists|sv: Seq<crate::aggregate::SentenceView>|
                    {
                        &&& crate::report::sorted_desc(sv)
                        &&& sv.to_multiset() == crate::aggregate::record_views(
                            crate::aggregate::ingest_run(Seq::empty(), ops, cfg.fold_case),
                        ).to_multiset()
                        &&& crate::text::str_views(lines@) == crate::report::report_of(sv, *cfg)
                    },
                None => true,
            }
        }),
{
    let ghost dv = docs_model(docs@);
    let ghost fc = cfg.fold_case;
    let mut table = crate::aggregate::AggregationTable::new();
    let mut i: usize = 0;
    proof {
        assert(dv.take(0) =~= Seq::<(Seq<char>, Seq<Seq<char>>)>::empty());
    }
    while i < docs.len()
        invariant
            i <= docs@.len(),
            dv == docs_model(docs@),
            dv.len() == docs@.len(),
            fc == cfg.fold_case,
            table.wf(),
            table@ == crate::aggregate::ingest_run(
                Seq::empty(),
                crate::aggregate::run_ops(dv.take(i as int)),
                fc,
            ),
            table.ingest_count() == crate::aggregate::run_ops(dv.take(i as int)).len(),
        decreases docs@.len() - i,
    {
        let ghost ops_done = crate::aggregate::run_ops(dv.take(i as int));
        let ghost frags_i = crate::scanner::fragments_of(dv[i as int].1);
        let ghost ops_i = crate::aggregate::tag_source(dv[i as int].0, frags_i);
        proof {
            assert(dv[i as int] == (docs@[i as int].0@, crate::text::str_views(
                docs@[i as int].1@,
            )));
            assert(dv.take(i as int + 1) =~= dv.take(i as int) + seq![dv[i as int]]);
            crate::aggregate::lemma_run_ops_concat(dv.take(i as int), seq![dv[i as int]]);
            assert(seq![dv[i as int]].drop_first() =~= Seq::<(Seq<char>, Seq<Seq<char>>)>::empty());
            assert(seq![dv[i as int]].first() == dv[i as int]);
            assert(crate::aggregate::run_ops(Seq::<(Seq<char>, Seq<Seq<char>>)>::empty())
                == Seq::<crate::aggregate::Occurrence>::empty());
            assert(ops_i + Seq::<crate::aggregate::Occurrence>::empty() =~= ops_i);
            assert(crate::aggregate::run_ops(seq![dv[i as int]]) =~= ops_i);
            assert(crate::aggregate::run_ops(dv.take(i as int + 1)) == ops_done + ops_i);
        }
        let ghost tv0 = table@;
        let name = &docs[i].0;
        let lines = &docs[i].1;
        let ok = table.try_process_document(name.as_str(), lines, cfg.fold_case);
        if !ok {
            proof {
                assert(crate::aggregate::run_ops(dv.take(i as int + 1)).len() > u64::MAX);
                assert(dv =~= dv.take(i as int + 1) + dv.skip(i as int + 1));
                crate::aggregate::lemma_run_ops_concat(
                    dv.take(i as int + 1),
                    dv.skip(i as int + 1),
                );
            }
            return None;
        }
        proof {
            crate::aggregate::lemma_ingest_all_is_run(tv0, dv[i as int].0, frags_i, fc);
            crate::aggregate::lemma_ingest_run_concat(Seq::empty(), ops_done, ops_i, fc);
        }
        i += 1;
    }
    proof {
        assert(dv.take(dv.len() as int) =~= dv);
        table.lemma_ingest_count_bounded();
    }
    Some(crate::report::render(table, cfg))
}

} // verus!
