use vstd::prelude::*;
use vstd::string::*;

use crate::subtitle::{is_valid_text, read_block, render, Entry, Subtitle};
use crate::text::{chars_of, digits, push_digits, split, split_on, string_of, trim, trimmed, views};

verus! {

/// What reading has gathered so far: the subtitles found, and the lines of the block that
/// is still open.
pub type ScanState = (Seq<Entry>, Seq<Seq<char>>);

/// One line of input read in state `st`: a blank line drops the open block; any other line
/// joins it, and once the block holds two lines or more and reads as a subtitle, the
/// subtitle is kept and the block closed.
pub open spec fn scan_step(st: ScanState, line: Seq<char>) -> ScanState {
    let t = trim(line);
    if t.len() == 0 {
        (st.0, Seq::empty())
    } else {
        let block = st.1.push(t);
        if block.len() > 1 && read_block(block) is Ok {
            (st.0.push(read_block(block)->Ok_0), Seq::empty())
        } else {
            (st.0, block)
        }
    }
}

/// The state after reading `lines` from the start.
pub open spec fn scan(lines: Seq<Seq<char>>) -> ScanState
    decreases lines.len(),
{
    if lines.len() == 0 {
        (Seq::empty(), Seq::empty())
    } else {
        scan_step(scan(lines.drop_last()), lines.last())
    }
}

/// The subtitles that a whole text yields, in order.
pub open spec fn parsed(text: Seq<char>) -> Seq<Entry> {
    scan(split(text, '\n')).0
}

/// The output for `entries`: each numbered from 1, its number on a line of its own, then its
/// canonical form, then a blank line.
pub open spec fn serialized(entries: Seq<Entry>) -> Seq<char>
    decreases entries.len(),
{
    if entries.len() == 0 {
        Seq::empty()
    } else {
        serialized(entries.drop_last()) + digits(entries.len()) + seq!['\n'] + render(
            entries.last(),
        ) + seq!['\n']
    }
}

proof fn lemma_step_keeps_prefix(done: Seq<Entry>, st: ScanState, line: Seq<char>)
    ensures
        scan_step((done + st.0, st.1), line) == (done + scan_step(st, line).0, scan_step(
            st,
            line,
        ).1),
{
    let t = trim(line);
    if t.len() != 0 {
        let block = st.1.push(t);
        if block.len() > 1 && read_block(block) is Ok {
            assert((done + st.0).push(read_block(block)->Ok_0) =~= done + st.0.push(
                read_block(block)->Ok_0,
            ));
        }
    }
}

/// A blank line closes whatever block is open: what follows it is read as if the input
/// began there, and what came before it is kept as it was.
pub proof fn lemma_blank_line_resets(before: Seq<Seq<char>>, blank: Seq<char>, after: Seq<Seq<char>>)
    requires
        trim(blank).len() == 0,
    ensures
        scan(before + seq![blank] + after) == (scan(before).0 + scan(after).0, scan(after).1),
    decreases after.len(),
{
    let all = before + seq![blank] + after;
    if after.len() == 0 {
        assert(all.drop_last() =~= before);
        assert(scan(before).0 + Seq::<Entry>::empty() =~= scan(before).0);
    } else {
        lemma_blank_line_resets(before, blank, after.drop_last());
        assert(all.drop_last() =~= before + seq![blank] + after.drop_last());
        lemma_step_keeps_prefix(scan(before).0, scan(after.drop_last()), after.last());
    }
}

/// A subtitle file: where it is read from, and the subtitles read from it, in file order.
pub struct SRT {
    file_path: String,
    subtitles: Vec<Subtitle>,
}

impl SRT {
    /// The subtitles held, as entries.
    pub closed spec fn entries(&self) -> Seq<Entry> {
        self.subtitles@.map_values(|s: Subtitle| s.entry())
    }

    /// The path that the subtitles are read from.
    pub closed spec fn path(&self) -> Seq<char> {
        self.file_path@
    }

    /// Every subtitle held has a text worth keeping.
    pub open spec fn wf(&self) -> bool {
        forall|i: int| 0 <= i < self.entries().len() ==> is_valid_text(#[trigger] self.entries()[i].2)
    }

    /// An empty document bound to `file_path`.
    pub fn new(file_path: &str) -> (r: Self)
        ensures
            r.path() == file_path@,
            r.entries() == Seq::<Entry>::empty(),
            r.wf(),
    {
        let r = SRT { file_path: String::from_str(file_path), subtitles: Vec::new() };
        assert(r.entries() =~= Seq::<Entry>::empty());
        r
    }

    /// The path that the subtitles are read from.
    pub fn file_path(&self) -> (r: &str)
        ensures
            r@ == self.path(),
    {
        self.file_path.as_str()
    }

    /// The subtitles held, in order.
    pub fn subtitles(&self) -> (r: &Vec<Subtitle>)
        ensures
            r@.map_values(|s: Subtitle| s.entry()) == self.entries(),
    {
        &self.subtitles
    }

    /// Reads the subtitles of a whole text and adds them after those held. Blocks that do not
    /// read as a valid subtitle are skipped (see `scan_step`).
    pub fn parse(&mut self, text: &str)
        ensures
            old(self).wf() ==> final(self).wf(),
            final(self).path() == old(self).path(),
            final(self).entries() == old(self).entries() + parsed(text@),
    {
        let chars = chars_of(text);
        let lines = split_on(&chars, '\n');
        let ghost ls = views(lines@);
        let ghost first = self.entries();
        let mut block: Vec<Vec<char>> = Vec::new();
        let mut i: usize = 0;
        proof {
            assert(ls.take(0) =~= Seq::<Seq<char>>::empty());
            assert(first + Seq::<Entry>::empty() =~= first);
            assert(views(block@) =~= Seq::<Seq<char>>::empty());
        }
        while i < lines.len()
            invariant
                i <= lines.len(),
                ls == views(lines@),
                ls == split(text@, '\n'),
                old(self).wf() ==> self.wf(),
                self.path() == old(self).path(),
                self.entries() == first + scan(ls.take(i as int)).0,
                views(block@) == scan(ls.take(i as int)).1,
            decreases lines.len() - i,
        {
            assert(ls.take(i + 1).drop_last() =~= ls.take(i as int));
            assert(ls.take(i + 1).last() == lines@[i as int]@);
            let t = trimmed(&lines[i]);
            if t.len() == 0 {
                block = Vec::new();
                assert(views(block@) =~= Seq::<Seq<char>>::empty());
            } else {
                let ghost before = views(block@);
                block.push(t);
                assert(views(block@) =~= before.push(t@));
                if block.len() > 1 {
                    match Subtitle::from_lines(&block) {
                        Ok(s) => {
                            let ghost old_entries = self.entries();
                            self.subtitles.push(s);
                            assert(self.entries() =~= old_entries.push(s.entry()));
                            block = Vec::new();
                            assert(views(block@) =~= Seq::<Seq<char>>::empty());
                        },
                        Err(_) => {},
                    }
                }
            }
            i += 1;
        }
        assert(ls.take(i as int) =~= ls);
    }

    /// The canonical output: each subtitle numbered from 1 (see `serialized`).
    pub fn serialize(&self) -> (r: String)
        ensures
            r@ == serialized(self.entries()),
    {
        let mut out: Vec<char> = Vec::new();
        let mut i: usize = 0;
        while i < self.subtitles.len()
            invariant
                i <= self.subtitles.len(),
                out@ == serialized(self.entries().take(i as int)),
            decreases self.subtitles.len() - i,
        {
            let ghost es = self.entries().take(i + 1);
            assert(es.drop_last() =~= self.entries().take(i as int));
            assert(es.last() == self.subtitles@[i as int].entry());
            push_digits(&mut out, (i + 1) as u64);
            out.push('\n');
            self.subtitles[i].push_rendering(&mut out);
            out.push('\n');
            i += 1;
            assert(out@ =~= serialized(es));
        }
        assert(self.entries().take(i as int) =~= self.entries());
        string_of(&out)
    }
}

} // verus!
