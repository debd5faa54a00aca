//! The reporter: sorts the aggregated records by descending occurrence
//! count, drops boilerplate records, and renders each survivor as one line.

use crate::aggregate::{record_views, sentence_views, AggregationTable, Sentence, SentenceView};
use crate::text::{dec_str, has_prefix, starts_with, str_views, u64_to_dec};
use crate::Config;
use vstd::multiset::Multiset;
use vstd::prelude::*;

verus! {

broadcast use vstd::seq_lib::group_to_multiset_ensures;

/// The marker that opens the text of a boilerplate record.
pub open spec fn boilerplate_marker() -> Seq<char> {
    "Collapse Subdiscussion"@
}

/// A record whose text starts with the boilerplate marker is never rendered.
pub open spec fn is_boilerplate(text: Seq<char>) -> bool {
    has_prefix(text, boilerplate_marker())
}

/// Tests whether a record text is boilerplate.
pub fn boilerplate(text: &str) -> (r: bool)
    ensures
        r == is_boilerplate(text@),
{
    starts_with(text, "Collapse Subdiscussion")
}

/// The records stand in descending order of count.
pub open spec fn sorted_desc(rs: Seq<SentenceView>) -> bool {
    forall|i: int| 0 < i < rs.len() ==> #[trigger] rs[i].count <= rs[i - 1].count
}

/// Sorts the records by descending count. The contract pins the order only
/// up to ties: the order of records with equal counts is left unspecified.
/// (The selection below is in fact stable, taking the earliest of the
/// remaining maxima each round.)
pub fn sort_by_count_desc(records: &mut Vec<Sentence>)
    ensures
        sorted_desc(sentence_views(final(records)@)),
        sentence_views(final(records)@).to_multiset() == sentence_views(
            old(records)@,
        ).to_multiset(),
{
    let ghost orig = sentence_views(old(records)@);
    let mut out: Vec<Sentence> = Vec::new();
    proof {
        assert(sentence_views(out@) =~= Seq::<SentenceView>::empty());
        assert(sentence_views(out@).to_multiset().add(sentence_views(records@).to_multiset())
            =~= orig.to_multiset());
    }
    while records.len() > 0
        invariant
            sorted_desc(sentence_views(out@)),
            sentence_views(out@).to_multiset().add(sentence_views(records@).to_multiset())
                == orig.to_multiset(),
            forall|a: int, b: int|
                0 <= a < out@.len() && 0 <= b < records@.len() ==> #[trigger] out@[a].count
                    >= #[trigger] records@[b].count,
        decreases records@.len(),
    {
        let mut best: usize = 0;
        let mut j: usize = 1;
        while j < records.len()
            invariant
                best < j <= records@.len(),
                records@.len() > 0,
                forall|b: int| 0 <= b < j ==> records@[best as int].count >= #[trigger] records@[b].count,
            decreases records@.len() - j,
        {
            if records[j].count > records[best].count {
                best = j;
            }
            j += 1;
        }
        let ghost old_rec = records@;
        let ghost old_out = out@;
        let s = records.remove(best);
        out.push(s);
        proof {
            assert(sentence_views(out@) =~= sentence_views(old_out).push(old_rec[best as int]@));
            assert(sentence_views(records@) =~= sentence_views(old_rec).remove(best as int));
            assert(sentence_views(old_rec)[best as int] == old_rec[best as int]@);
            assert(sentence_views(out@).to_multiset().add(sentence_views(records@).to_multiset())
                =~= sentence_views(old_out).to_multiset().add(
                sentence_views(old_rec).to_multiset(),
            ));
        }
    }
    proof {
        assert(sentence_views(records@).to_multiset() =~= Multiset::<SentenceView>::empty());
        assert(sentence_views(out@).to_multiset().add(Multiset::<SentenceView>::empty())
            =~= sentence_views(out@).to_multiset());
    }
    *records = out;
}

/// The first report line: the number of distinct records, before filtering.
pub open spec fn header_line(n: nat) -> Seq<char> {
    "Total sentences: "@ + dec_str(n)
}

fn make_header(n: u64) -> (r: String)
    ensures
        r@ == header_line(n as nat),
{
    let mut r = "Total sentences: ".to_owned();
    let digits = u64_to_dec(n);
    r.append(digits.as_str());
    r
}

/// The provenance part of a rendered line: one space before each entry.
pub open spec fn prov_part(p: Seq<Seq<char>>) -> Seq<char>
    decreases p.len(),
{
    if p.len() == 0 {
        Seq::empty()
    } else {
        prov_part(p.drop_last()) + seq![' '] + p.last()
    }
}

/// The rendered line of one record: the count, each provenance entry
/// preceded by a space (when provenance is tracked), a tab, and the text.
pub open spec fn line_of(r: SentenceView, track_provenance: bool) -> Seq<char> {
    dec_str(r.count) + (if track_provenance {
        prov_part(r.provenance)
    } else {
        Seq::<char>::empty()
    }) + seq!['\t'] + r.text
}

impl Sentence {
    /// Renders this record as one report line.
    pub fn render_line(&self, track_provenance: bool) -> (line: String)
        ensures
            line@ == line_of(self@, track_provenance),
    {
        let mut line = u64_to_dec(self.count);
        let ghost count_part = dec_str(self@.count);
        if track_provenance {
            let mut i: usize = 0;
            proof {
                assert(self@.provenance.take(0) =~= Seq::<Seq<char>>::empty());
            }
            while i < self.provenance.len()
                invariant
                    i <= self@.provenance.len(),
                    self@.provenance.len() == self.provenance@.len(),
                    self@.provenance == str_views(self.provenance@),
                    line@ == count_part + prov_part(self@.provenance.take(i as int)),
                    count_part == dec_str(self@.count),
                decreases self@.provenance.len() - i,
            {
                let space = " ";
                proof {
                    reveal_strlit(" ");
                    assert(space@ =~= seq![' ']);
                    assert(self@.provenance.take(i as int + 1).drop_last() =~= self@.provenance.take(
                        i as int,
                    ));
                    assert(self@.provenance.take(i as int + 1).last() == self@.provenance[i as int]);
                }
                line.append(space);
                line.append(self.provenance[i].as_str());
                i += 1;
            }
            proof {
                assert(self@.provenance.take(self@.provenance.len() as int) =~= self@.provenance);
            }
        }
        let tab = "\t";
        proof {
            reveal_strlit("\t");
            assert(tab@ =~= seq!['\t']);
        }
        line.append(tab);
        line.append(self.text.as_str());
        line
    }
}

/// A record that survives the boilerplate filter.
pub open spec fn nontrivial(r: SentenceView) -> bool {
    !is_boilerplate(r.text)
}

/// The records that are rendered, in order: boilerplate is dropped, and with
/// `repeated_only` also every record seen only once.
pub open spec fn keep_if(rs: Seq<SentenceView>, repeated_only: bool) -> Seq<SentenceView>
    decreases rs.len(),
{
    if rs.len() == 0 {
        Seq::empty()
    } else {
        let rest = keep_if(rs.drop_last(), repeated_only);
        if nontrivial(rs.last()) && (!repeated_only || rs.last().count > 1) {
            rest.push(rs.last())
        } else {
            rest
        }
    }
}

/// Some nontrivial record was seen more than once.
pub open spec fn any_repeated(rs: Seq<SentenceView>) -> bool {
    exists|i: int| 0 <= i < rs.len() && nontrivial(#[trigger] rs[i]) && rs[i].count > 1
}

/// The records that the report shows: boilerplate never; and under
/// `only_show_repeated`, only the repeated ones when any exist, else all
/// nontrivial ones.
pub open spec fn selected(rs: Seq<SentenceView>, only_show_repeated: bool) -> Seq<SentenceView> {
    keep_if(rs, only_show_repeated && any_repeated(rs))
}

/// No rendered record's text starts with the boilerplate marker.
pub proof fn lemma_no_boilerplate_selected(rs: Seq<SentenceView>, repeated_only: bool, i: int)
    requires
        0 <= i < keep_if(rs, repeated_only).len(),
    ensures
        !is_boilerplate(keep_if(rs, repeated_only)[i].text),
    decreases rs.len(),
{
    if rs.len() > 0 {
        let rest = keep_if(rs.drop_last(), repeated_only);
        if i < rest.len() {
            lemma_no_boilerplate_selected(rs.drop_last(), repeated_only, i);
        }
    }
}

/// The whole report of `rs`: the header, then one line per selected record.
pub open spec fn report_of(rs: Seq<SentenceView>, cfg: Config) -> Seq<Seq<char>> {
    seq![header_line(rs.len())] + selected(rs, cfg.only_show_repeated).map_values(
        |r: SentenceView| line_of(r, cfg.track_provenance),
    )
}

/// Renders the report of the records as they stand, in their given order.
pub fn render_lines(records: &Vec<Sentence>, cfg: &Config) -> (lines: Vec<String>)
    ensures
        str_views(lines@) == report_of(sentence_views(records@), *cfg),
{
    let ghost rs = sentence_views(records@);
    let mut lines: Vec<String> = Vec::new();
    lines.push(make_header(records.len() as u64));
    let mut any_rep = false;
    let mut i: usize = 0;
    proof {
        assert(rs.take(0) =~= Seq::<SentenceView>::empty());
    }
    while i < records.len()
        invariant
            i <= records@.len(),
            rs == sentence_views(records@),
            rs.len() == records@.len(),
            any_rep == any_repeated(rs.take(i as int)),
        decreases records@.len() - i,
    {
        proof {
            assert(rs.take(i as int + 1).drop_last() =~= rs.take(i as int));
            assert(rs.take(i as int + 1).last() == rs[i as int]);
        }
        let ghost pre = any_rep;
        if !boilerplate(records[i].text.as_str()) && records[i].count > 1 {
            any_rep = true;
        }
        proof {
            let t1 = rs.take(i as int + 1);
            if any_rep {
                if pre {
                    let w = choose|w: int|
                        0 <= w < rs.take(i as int).len() && nontrivial(#[trigger] rs.take(i as int)[w])
                            && rs.take(i as int)[w].count > 1;
                    assert(nontrivial(t1[w]) && t1[w].count > 1);
                } else {
                    assert(nontrivial(t1[i as int]) && t1[i as int].count > 1);
                }
            } else {
                if any_repeated(t1) {
                    let w = choose|w: int|
                        0 <= w < t1.len() && nontrivial(#[trigger] t1[w]) && t1[w].count > 1;
                    if w < i {
                        assert(nontrivial(rs.take(i as int)[w]) && rs.take(i as int)[w].count > 1);
                    }
                }
            }
        }
        i += 1;
    }
    proof {
        assert(rs.take(rs.len() as int) =~= rs);
    }
    let repeated_only = cfg.only_show_repeated && any_rep;
    let ghost line_fn = |r: SentenceView| line_of(r, cfg.track_provenance);
    let mut k: usize = 0;
    proof {
        assert(rs.take(0) =~= Seq::<SentenceView>::empty());
        assert(str_views(lines@) =~= seq![header_line(rs.len())] + keep_if(
            rs.take(0),
            repeated_only,
        ).map_values(line_fn));
    }
    while k < records.len()
        invariant
            k <= records@.len(),
            rs == sentence_views(records@),
            rs.len() == records@.len(),
            str_views(lines@) == seq![header_line(rs.len())] + keep_if(
                rs.take(k as int),
                repeated_only,
            ).map_values(line_fn),
            line_fn == (|r: SentenceView| line_of(r, cfg.track_provenance)),
        decreases records@.len() - k,
    {
        proof {
            assert(rs.take(k as int + 1).drop_last() =~= rs.take(k as int));
            assert(rs.take(k as int + 1).last() == rs[k as int]);
        }
        let keep = !boilerplate(records[k].text.as_str()) && (!repeated_only || records[k].count
            > 1);
        if keep {
            let ghost old_lines = lines@;
            let line = records[k].render_line(cfg.track_provenance);
            lines.push(line);
            proof {
                assert(str_views(lines@) =~= str_views(old_lines).push(line_fn(rs[k as int])));
                assert(keep_if(rs.take(k as int + 1), repeated_only).map_values(line_fn)
                    =~= keep_if(rs.take(k as int), repeated_only).map_values(line_fn).push(
                    line_fn(rs[k as int]),
                ));
                assert(str_views(lines@) =~= seq![header_line(rs.len())] + keep_if(
                    rs.take(k as int + 1),
                    repeated_only,
                ).map_values(line_fn));
            }
        }
        k += 1;
    }
    proof {
        assert(rs.take(rs.len() as int) =~= rs);
    }
    lines
}

/// Renders the full report of a table: the header, then one line per
/// surviving record, in descending count order.
pub fn render(table: AggregationTable, cfg: &Config) -> (lines: Vec<String>)
    ensures
        exists|sv: Seq<SentenceView>|
            {
                &&& sorted_desc(sv)
                &&& sv.to_multiset() == record_views(table@).to_multiset()
                &&& str_views(lines@) == report_of(sv, *cfg)
            },
{
    let ghost tv = table@;
    let mut records = table.into_records();
    proof {
        assert(sentence_views(records@).to_multiset() == record_views(tv).to_multiset());
    }
    sort_by_count_desc(&mut records);
    let lines = render_lines(&records, cfg);
    proof {
        let sv = sentence_views(records@);
        assert(sorted_desc(sv) && sv.to_multiset() == record_views(tv).to_multiset() && str_views(
            lines@,
        ) == report_of(sv, *cfg));
    }
    lines
}

} // verus!
