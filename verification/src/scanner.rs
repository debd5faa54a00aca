//! The page scanner: a two-state machine that skips a document's front
//! matter until the literal line `Page`, then splits each body line on `.`
//! and emits the fragments long enough to be candidate sentences.

use crate::text::{str_eq, str_views};
use vstd::prelude::*;

verus! {

/// Scanner state: front matter before the `Page` marker, or body text.
pub enum Mode {
    Header,
    TextBody,
}

/// The literal line that ends a document's front matter.
pub open spec fn page_marker() -> Seq<char> {
    "Page"@
}

pub open spec fn split_rec(s: Seq<char>, cur: Seq<char>) -> Seq<Seq<char>>
    decreases s.len(),
{
    if s.len() == 0 {
        seq![cur]
    } else if s.first() == '.' {
        seq![cur] + split_rec(s.drop_first(), Seq::empty())
    } else {
        split_rec(s.drop_first(), cur.push(s.first()))
    }
}

/// The fragments of a line: the runs of characters between `.` characters,
/// in order. A line with n dots yields n + 1 fragments, empty ones included.
pub open spec fn split_dots(s: Seq<char>) -> Seq<Seq<char>> {
    split_rec(s, Seq::empty())
}

/// A fragment long enough to be a candidate sentence: strictly more than 40
/// characters, counted on the raw fragment.
pub open spec fn fragment_kept(f: Seq<char>) -> bool {
    f.len() > 40
}

/// The candidate fragments among `fs`, in order.
pub open spec fn keep_long(fs: Seq<Seq<char>>) -> Seq<Seq<char>>
    decreases fs.len(),
{
    if fs.len() == 0 {
        Seq::empty()
    } else if fragment_kept(fs.last()) {
        keep_long(fs.drop_last()).push(fs.last())
    } else {
        keep_long(fs.drop_last())
    }
}

/// The length cut is strict: a fragment of exactly 40 characters is
/// discarded, one of 41 characters is kept.
pub proof fn lemma_length_boundary(f: Seq<char>)
    ensures
        f.len() == 40 ==> !fragment_kept(f),
        f.len() == 41 ==> fragment_kept(f),
{
}

/// The fragments emitted from `lines`, starting in the body iff `in_body`.
pub open spec fn scan_from(lines: Seq<Seq<char>>, in_body: bool) -> Seq<Seq<char>>
    decreases lines.len(),
{
    if lines.len() == 0 {
        Seq::empty()
    } else if in_body {
        keep_long(split_dots(lines.first())) + scan_from(lines.drop_first(), true)
    } else {
        scan_from(lines.drop_first(), lines.first() == page_marker())
    }
}

/// The candidate fragments of one document: lines up to and including the
/// first `Page` line contribute nothing; every later line is split on `.`
/// and its long fragments are emitted in order. A document without a `Page`
/// line contributes no fragments.
pub open spec fn fragments_of(lines: Seq<Seq<char>>) -> Seq<Seq<char>> {
    scan_from(lines, false)
}

/// Splits a line on `.` into its fragments.
pub fn split_line(line: &str) -> (frags: Vec<String>)
    ensures
        str_views(frags@) == split_dots(line@),
{
    let n = line.unicode_len();
    let mut out: Vec<String> = Vec::new();
    let mut cur = String::new();
    let mut i: usize = 0;
    proof {
        assert(line@.skip(0) =~= line@);
        assert(str_views(out@) + split_rec(line@, cur@) =~= split_dots(line@));
    }
    while i < n
        invariant
            n == line@.len(),
            i <= n,
            str_views(out@) + split_rec(line@.skip(i as int), cur@) == split_dots(line@),
        decreases n - i,
    {
        let c = line.get_char(i);
        proof {
            assert(line@.skip(i as int).drop_first() =~= line@.skip(i as int + 1));
            assert(line@.skip(i as int).first() == c);
        }
        if c == '.' {
            let ghost old_out = out@;
            let ghost old_cur = cur@;
            out.push(cur);
            cur = String::new();
            proof {
                assert(str_views(out@) =~= str_views(old_out).push(old_cur));
                assert(str_views(old_out).push(old_cur) + split_rec(
                    line@.skip(i as int + 1),
                    cur@,
                ) =~= str_views(old_out) + (seq![old_cur] + split_rec(
                    line@.skip(i as int + 1),
                    cur@,
                )));
            }
        } else {
            let cs = line.substring_char(i, i + 1);
            let ghost old_cur = cur@;
            cur.append(cs);
            proof {
                assert(cur@ =~= old_cur.push(c));
            }
        }
        i += 1;
    }
    let ghost old_out = out@;
    let ghost old_cur = cur@;
    out.push(cur);
    proof {
        assert(line@.skip(n as int) =~= Seq::<char>::empty());
        assert(str_views(out@) =~= str_views(old_out).push(old_cur));
        assert(str_views(old_out).push(old_cur) =~= str_views(old_out) + seq![old_cur]);
    }
    out
}

/// Splits a line on `.` and keeps only the fragments longer than 40
/// characters.
pub fn scan_line(line: &str) -> (frags: Vec<String>)
    ensures
        str_views(frags@) == keep_long(split_dots(line@)),
{
    let parts = split_line(line);
    let mut out: Vec<String> = Vec::new();
    let mut i: usize = 0;
    proof {
        assert(str_views(parts@).take(0) =~= Seq::<Seq<char>>::empty());
        assert(str_views(out@) =~= Seq::<Seq<char>>::empty());
    }
    while i < parts.len()
        invariant
            i <= parts@.len(),
            str_views(out@) == keep_long(str_views(parts@).take(i as int)),
        decreases parts@.len() - i,
    {
        proof {
            assert(str_views(parts@).take(i as int + 1).drop_last() =~= str_views(parts@).take(
                i as int,
            ));
            assert(str_views(parts@).take(i as int + 1).last() == parts@[i as int]@);
        }
        if parts[i].as_str().unicode_len() > 40 {
            let ghost old_out = out@;
            out.push(parts[i].clone());
            proof {
                assert(str_views(out@) =~= str_views(old_out).push(parts@[i as int]@));
            }
        }
        i += 1;
    }
    proof {
        assert(str_views(parts@).take(parts@.len() as int) =~= str_views(parts@));
    }
    out
}

/// The running scanner for one document.
pub struct PageScanner {
    pub mode: Mode,
}

impl PageScanner {
    /// The scanner has seen the `Page` marker and is emitting body fragments.
    pub open spec fn in_body(self) -> bool {
        self.mode is TextBody
    }

    /// A fresh scanner, still in the front matter.
    pub fn new() -> (s: Self)
        ensures
            !s.in_body(),
    {
        PageScanner { mode: Mode::Header }
    }

    /// Consumes one line. In the front matter the literal line `Page` moves
    /// the scanner to the body and nothing is emitted; in the body the line's
    /// long fragments are emitted.
    pub fn feed_line(&mut self, line: &str) -> (frags: Vec<String>)
        ensures
            old(self).in_body() ==> final(self).in_body() && str_views(frags@) == keep_long(
                split_dots(line@),
            ),
            !old(self).in_body() ==> str_views(frags@) == Seq::<Seq<char>>::empty() && (final(self).in_body() <==> line@ == page_marker()),
    {
        match self.mode {
            Mode::Header => {
                if str_eq(line, "Page") {
                    self.mode = Mode::TextBody;
                }
                let frags = Vec::new();
                proof {
                    assert(str_views(frags@) =~= Seq::<Seq<char>>::empty());
                }
                frags
            },
            Mode::TextBody => scan_line(line),
        }
    }
}

/// Scans a whole document and returns its candidate fragments in order.
pub fn scan_document(lines: &Vec<String>) -> (frags: Vec<String>)
    ensures
        str_views(frags@) == fragments_of(str_views(lines@)),
{
    let mut sc = PageScanner::new();
    let mut out: Vec<String> = Vec::new();
    let mut i: usize = 0;
    proof {
        assert(str_views(lines@).skip(0) =~= str_views(lines@));
        assert(str_views(out@) + scan_from(str_views(lines@), false) =~= fragments_of(
            str_views(lines@),
        ));
    }
    while i < lines.len()
        invariant
            i <= lines@.len(),
            str_views(out@) + scan_from(str_views(lines@).skip(i as int), sc.in_body())
                == fragments_of(str_views(lines@)),
        decreases lines@.len() - i,
    {
        proof {
            assert(str_views(lines@).skip(i as int).drop_first() =~= str_views(lines@).skip(
                i as int + 1,
            ));
            assert(str_views(lines@).skip(i as int).first() == lines@[i as int]@);
        }
        let ghost old_out = out@;
        let ghost was_body = sc.in_body();
        let mut f = sc.feed_line(lines[i].as_str());
        let ghost fv = f@;
        out.append(&mut f);
        proof {
            assert(fv.len() == str_views(fv).len());
            if was_body {
                assert(str_views(out@) =~= str_views(old_out) + keep_long(
                    split_dots(lines@[i as int]@),
                ));
                assert(str_views(old_out) + (keep_long(split_dots(lines@[i as int]@)) + scan_from(
                    str_views(lines@).skip(i as int + 1),
                    true,
                )) =~= str_views(out@) + scan_from(str_views(lines@).skip(i as int + 1), true));
            } else {
                assert(str_views(out@) =~= str_views(old_out));
            }
        }
        i += 1;
    }
    proof {
        assert(str_views(lines@).skip(lines@.len() as int) =~= Seq::<Seq<char>>::empty());
    }
    out
}

} // verus!
