//! Source text with the names of the files it came from and its line structure.
use vstd::prelude::*;
use crate::text::{
    chars_of, dec_digits, pad_left, push_char, push_chars, push_dec, push_dec_right_aligned, push_repeat, push_str,
    repeat_char,
};

verus! {

/// The text of a program: a preamble followed by the contents of a file.
/// Positions count characters (Unicode scalar values) from the start of the text, not
/// bytes: the library reads a text as its sequence of characters, from the lexer to the
/// line table, so every position names a character and none falls inside one. On ASCII
/// text the two counts are the same.
#[derive(Debug)]
pub struct FileContents {
    data: String,
    chars: Vec<char>,
    filenames: Vec<(usize, String)>,
    newlines: Vec<(usize, usize)>,
}

/// The line table of a text: position 0 (or `offset`) starts line 1, and each line
/// feed at position `p` starts the next line there.
pub open spec fn spec_newlines(offset: nat, data: Seq<char>) -> Seq<(nat, nat)>
    decreases data.len(),
{
    if data.len() == 0 {
        seq![(offset, 1nat)]
    } else {
        let rest = spec_newlines(offset, data.drop_last());
        if data.last() == '\n' {
            rest.push(((offset + data.len() - 1) as nat, (rest.len() + 1) as nat))
        } else {
            rest
        }
    }
}

pub open spec fn line_table_view(t: Seq<(usize, usize)>) -> Seq<(nat, nat)> {
    t.map_values(|p: (usize, usize)| (p.0 as nat, p.1 as nat))
}

/// The last entry of a table sorted by position whose position is at most `index`
/// (the first entry when there is none).
pub open spec fn last_at_or_before(positions: Seq<nat>, index: nat) -> int
    decreases positions.len(),
{
    if positions.len() <= 1 {
        0
    } else if positions.last() <= index {
        positions.len() - 1
    } else {
        last_at_or_before(positions.drop_last(), index)
    }
}

proof fn lemma_newlines_len(offset: nat, data: Seq<char>)
    ensures
        1 <= spec_newlines(offset, data).len() <= data.len() + 1,
    decreases data.len(),
{
    if data.len() > 0 {
        lemma_newlines_len(offset, data.drop_last());
    }
}

fn mark_newlines(offset: usize, newlines_list: &mut Vec<(usize, usize)>, data: &[char])
    requires
        offset + data@.len() < usize::MAX,
    ensures
        line_table_view(final(newlines_list)@) == line_table_view(old(newlines_list)@) + spec_newlines(
            offset as nat,
            data@,
        ),
{
    let ghost start = old(newlines_list)@;
    newlines_list.push((offset, 1));
    let mut index: usize = 1;
    let mut i: usize = 0;
    proof {
        assert(data@.subrange(0, 0) == Seq::<char>::empty());
        assert(line_table_view(newlines_list@) == line_table_view(start) + spec_newlines(
            offset as nat,
            data@.subrange(0, 0),
        ));
    }
    while i < data.len()
        invariant
            offset + data@.len() < usize::MAX,
            i <= data@.len(),
            index == spec_newlines(offset as nat, data@.subrange(0, i as int)).len(),
            index <= i + 1,
            line_table_view(newlines_list@) == line_table_view(start) + spec_newlines(
                offset as nat,
                data@.subrange(0, i as int),
            ),
        decreases data@.len() - i,
    {
        let ghost before = newlines_list@;
        proof {
            let s = data@.subrange(0, i + 1);
            assert(s.drop_last() == data@.subrange(0, i as int));
            assert(s.last() == data@[i as int]);
            lemma_newlines_len(offset as nat, data@.subrange(0, i as int));
        }
        if data[i] == '\n' {
            index = index + 1;
            newlines_list.push((offset + i, index));
            proof {
                assert(line_table_view(newlines_list@) =~= line_table_view(before).push(((offset + i) as nat, index as nat)));
                assert(line_table_view(newlines_list@) =~= line_table_view(start) + spec_newlines(
                    offset as nat,
                    data@.subrange(0, i + 1),
                ));
            }
        }
        i = i + 1;
    }
    assert(data@.subrange(0, data@.len() as int) == data@);
}

impl FileContents {
    /// The whole text.
    pub closed spec fn text(self) -> Seq<char> {
        self.chars@
    }

    pub closed spec fn wf(self) -> bool {
        &&& self.data@ == self.chars@
        &&& self.newlines@.len() >= 1
        &&& self.filenames@.len() >= 1
    }

    /// The line table: positions where lines start, with their line numbers.
    pub closed spec fn lines_table(self) -> Seq<(nat, nat)> {
        line_table_view(self.newlines@)
    }

    /// The file names, with the position where each file's text starts.
    pub closed spec fn files(self) -> Seq<(nat, Seq<char>)> {
        self.filenames@.map_values(|p: (usize, String)| (p.0 as nat, p.1@))
    }

    /// The text of a preamble followed by a file's text, with line numbers
    /// counted from 1 in each. The file's text starts at the preamble's length in
    /// characters.
    pub fn new_from_data(preamble: &str, user_data: &str, filename: &str) -> (r: FileContents)
        requires
            preamble@.len() + user_data@.len() < usize::MAX,
        ensures
            r.wf(),
            r.text() == preamble@ + user_data@,
            r.lines_table() == spec_newlines(0, preamble@) + spec_newlines(
                preamble@.len(),
                user_data@,
            ),
            r.files() == seq![(0nat, "<builtin>"@), (preamble@.len(), filename@)],
    {
        let pre = chars_of(preamble);
        let user = chars_of(user_data);
        let mut newlines: Vec<(usize, usize)> = Vec::new();
        proof {
            lemma_newlines_len(0, pre@);
        }
        mark_newlines(0, &mut newlines, pre.as_slice());
        let mut contents = String::new();
        push_str(&mut contents, preamble);
        push_str(&mut contents, user_data);
        mark_newlines(pre.len(), &mut newlines, user.as_slice());
        let mut chars = pre.clone();
        let mut i: usize = 0;
        while i < user.len()
            invariant
                i <= user@.len(),
                chars@ == pre@ + user@.subrange(0, i as int),
            decreases user@.len() - i,
        {
            chars.push(user[i]);
            i = i + 1;
            assert(chars@ =~= pre@ + user@.subrange(0, i as int));
        }
        assert(user@.subrange(0, user@.len() as int) == user@);
        let mut filenames: Vec<(usize, String)> = Vec::new();
        filenames.push((0, String::from_str("<builtin>")));
        filenames.push((pre.len(), String::from_str(filename)));
        let r = FileContents { data: contents, chars, filenames, newlines };
        assert(r.files() =~= seq![(0nat, "<builtin>"@), (preamble@.len(), filename@)]);
        assert(r.newlines@.len() >= 1) by {
            lemma_newlines_nonempty(0, preamble@);
            assert(line_table_view(r.newlines@).len() == r.newlines@.len());
        }
        r
    }

    /// The text of a file after a preamble of one empty line.
    pub fn new_from_file_text(user_data: &str, filename: &str) -> (r: FileContents)
        requires
            1 + user_data@.len() < usize::MAX,
        ensures
            r.wf(),
            r.text() == "\n"@ + user_data@,
    {
        proof {
            reveal_strlit("\n");
        }
        FileContents::new_from_data("\n", user_data, filename)
    }

    pub fn data(&self) -> (r: &str)
        requires
            self.wf(),
        ensures
            r@ == self.text(),
    {
        self.data.as_str()
    }

    pub fn chars(&self) -> (r: &Vec<char>)
        ensures
            r@ == self.text(),
    {
        &self.chars
    }

    /// For the text of a preamble followed by a file's text: a position before the
    /// file's start (the preamble's length) is in `<builtin>`, and any other in the file.
    pub proof fn lemma_file_of_position(self, start: nat, filename: Seq<char>, index: nat)
        requires
            self.files() == seq![(0nat, "<builtin>"@), (start, filename)],
        ensures
            index < start ==> self.file_at(index) == "<builtin>"@,
            index >= start ==> self.file_at(index) == filename,
    {
        let positions = self.files().map_values(|p: (nat, Seq<char>)| p.0);
        assert(positions =~= seq![0nat, start]);
        assert(positions.drop_last() =~= seq![0nat]);
        assert(last_at_or_before(positions.drop_last(), index) == 0);
        if index < start {
            assert(last_at_or_before(positions, index) == 0);
        } else {
            assert(last_at_or_before(positions, index) == 1);
        }
    }

    /// The name of the file that the text at a position came from.
    pub open spec fn file_at(self, index: nat) -> Seq<char> {
        self.files()[last_at_or_before(self.files().map_values(|p: (nat, Seq<char>)| p.0), index)].1
    }

    /// The number of the line holding a position, where that line starts, and where
    /// the next one starts (or the end of the text).
    pub open spec fn line_info(self, index: nat) -> (nat, nat, nat) {
        let t = self.lines_table();
        let k = last_at_or_before(t.map_values(|p: (nat, nat)| p.0), index);
        (t[k].1, t[k].0, if k == t.len() - 1 {
            self.text().len()
        } else {
            t[k + 1].0
        })
    }

    /// The name of the file that the text at a position came from.
    pub fn filename(&self, index: usize) -> (r: &String)
        requires
            self.wf(),
        ensures
            r@ == self.file_at(index as nat),
    {
        let ghost positions = self.files().map_values(|p: (nat, Seq<char>)| p.0);
        let i = last_entry_at_or_before(&self.filenames, index);
        proof {
            assert(positions == self.filenames@.map_values(|p: (usize, String)| p.0 as nat));
        }
        &self.filenames[i].1
    }

    /// The number of the line holding a position, where that line starts, and where the next one starts.
    pub fn line_number_and_bounds(&self, index: usize) -> (r: (usize, usize, usize))
        requires
            self.wf(),
        ensures
            r.0 == self.line_info(index as nat).0,
            r.1 == self.line_info(index as nat).1,
            r.2 == self.line_info(index as nat).2,
    {
        let ghost positions = self.lines_table().map_values(|p: (nat, nat)| p.0);
        let k = last_newline_at_or_before(&self.newlines, index);
        let next_line_loc = if k == self.newlines.len() - 1 {
            self.chars.len()
        } else {
            self.newlines[k + 1].0
        };
        let cur_line = self.newlines[k];
        (cur_line.1, cur_line.0, next_line_loc)
    }

    /// Where the line holding a position starts.
    pub fn line(&self, index: usize) -> (r: usize)
        requires
            self.wf(),
        ensures
            r == self.line_info(index as nat).1,
    {
        self.line_number_and_bounds(index).1
    }

    /// The file name and the value of `line` at a position, as `name:line`.
    pub fn file_and_line(&self, index: usize) -> (r: String)
        requires
            self.wf(),
        ensures
            r@ == self.file_at(index as nat) + seq![':'] + dec_digits(self.line_info(index as nat).1),
    {
        let mut s = self.filename(index).clone();
        push_char(&mut s, ':');
        push_dec(&mut s, self.line(index) as u128);
        s
    }

    /// The file name and the values of `line` at two positions, as `name:line`
    /// or `name:first-last`.
    pub fn range(&self, start: usize, end: usize) -> (r: String)
        requires
            self.wf(),
        ensures
            r@ == self.file_at(start as nat) + seq![':'] + dec_digits(self.line_info(start as nat).1) + if self.line_info(
                start as nat,
            ).1 != self.line_info(end as nat).1 {
                seq!['-'] + dec_digits(self.line_info(end as nat).1)
            } else {
                Seq::empty()
            },
    {
        let mut s = self.filename(start).clone();
        let start_line = self.line(start);
        let end_line = self.line(end);
        push_char(&mut s, ':');
        push_dec(&mut s, start_line as u128);
        if start_line != end_line {
            push_char(&mut s, '-');
            push_dec(&mut s, end_line as u128);
        }
        proof {
            if start_line == end_line {
                assert(s@ =~= self.file_at(start as nat) + seq![':'] + dec_digits(start_line as nat) + Seq::<char>::empty());
            }
        }
        s
    }

    /// The text that `show_region` gives for a region from `start` to `end`.
    pub open spec fn region_text(self, start: nat, end: nat) -> Seq<char> {
        let begin_no = self.line_info(start).0;
        let begin_loc = self.line_info(start).1;
        let end_no = self.line_info(end).0;
        let last_begin = self.line_info(end).1;
        let end_loc = self.line_info(end).2;
        let begin_off: nat = if start >= begin_loc {
            (start - begin_loc) as nat
        } else {
            0
        };
        let end_off: nat = if end_loc > last_begin {
            (end_loc - last_begin - 1) as nat
        } else {
            0
        };
        let seg_end = if end_loc <= self.text().len() {
            end_loc
        } else {
            self.text().len()
        };
        let seg_start = if begin_loc <= seg_end {
            begin_loc
        } else {
            seg_end
        };
        let lines = spec_lines(self.text().subrange(seg_start as int, seg_end as int));
        "     -> "@ + self.file_at(start) + seq![':'] + dec_digits(begin_no) + "\n     |\n"@ + region_body(
            lines,
            begin_no,
            end_no,
            begin_off,
            end_off,
            lines.len(),
        )
    }

    /// The lines of the text that hold a region, each with its number, and with
    /// carets under the characters of the region.
    pub fn show_region(&self, start: usize, end: usize) -> (r: String)
        requires
            self.wf(),
        ensures
            r@ == self.region_text(start as nat, end as nat),
    {
        let (begin_line_no, begin_loc, _) = self.line_number_and_bounds(start);
        let (end_line_no, begin_last_line, end_loc) = self.line_number_and_bounds(end);
        let begin_line_offset = if start >= begin_loc {
            start - begin_loc
        } else {
            0
        };
        let end_line_offset = if end_loc > begin_last_line {
            end_loc - begin_last_line - 1
        } else {
            0
        };
        let mut result = String::new();
        push_str(&mut result, "     -> ");
        let name = self.filename(start);
        push_str(&mut result, name.as_str());
        push_char(&mut result, ':');
        push_dec(&mut result, begin_line_no as u128);
        push_str(&mut result, "\n     |\n");
        let ghost head = result@;
        let seg_end = if end_loc <= self.chars.len() {
            end_loc
        } else {
            self.chars.len()
        };
        let seg_start = if begin_loc <= seg_end {
            begin_loc
        } else {
            seg_end
        };
        let segment = crate::lexer::slice_of(&self.chars, seg_start, seg_end);
        let lines = split_lines(&segment);
        let ghost all = lines@.map_values(|l: Vec<char>| l@);
        let mut number = begin_line_no;
        let mut i: usize = 0;
        while i < lines.len()
            invariant
                i <= lines@.len(),
                all == lines@.map_values(|l: Vec<char>| l@),
                number == line_number_at(begin_line_no as nat, i as nat),
                result@ == head + region_body(
                    all,
                    begin_line_no as nat,
                    end_line_no as nat,
                    begin_line_offset as nat,
                    end_line_offset as nat,
                    i as nat,
                ),
            decreases lines@.len() - i,
        {
            let line = &lines[i];
            assert(all[i as int] == line@);
            let this_start = if number == begin_line_no {
                begin_line_offset
            } else {
                0
            };
            let this_end = if number == end_line_no {
                end_line_offset
            } else {
                line.len()
            };
            let piece = region_line_text(line, number, this_start, this_end);
            push_str(&mut result, piece.as_str());
            proof {
                let body = region_body(
                    all,
                    begin_line_no as nat,
                    end_line_no as nat,
                    begin_line_offset as nat,
                    end_line_offset as nat,
                    (i + 1) as nat,
                );
                assert(body == region_body(
                    all,
                    begin_line_no as nat,
                    end_line_no as nat,
                    begin_line_offset as nat,
                    end_line_offset as nat,
                    i as nat,
                ) + region_line(line@, number as nat, this_start as nat, this_end as nat));
                assert(result@ =~= head + body);
            }
            if number < usize::MAX {
                number = number + 1;
            }
            i = i + 1;
        }
        result
    }
}

/// One line of a shown region: see `region_line`.
fn region_line_text(line: &Vec<char>, number: usize, this_start: usize, this_end: usize) -> (r: String)
    ensures
        r@ == region_line(line@, number as nat, this_start as nat, this_end as nat),
{
    let mut piece = String::new();
    push_dec_right_aligned(&mut piece, number as u128, 4);
    push_str(&mut piece, " | ");
    push_chars(&mut piece, line.as_slice());
    push_char(&mut piece, '\n');
    push_str(&mut piece, "     | ");
    push_repeat(&mut piece, ' ', this_start);
    let ghost upto_spaces = piece@;
    if this_end > this_start {
        push_repeat(&mut piece, '^', this_end - this_start);
    } else {
        assert(piece@ =~= upto_spaces + Seq::<char>::empty());
    }
    push_char(&mut piece, '\n');
    assert(piece@ =~= region_line(line@, number as nat, this_start as nat, this_end as nat));
    piece
}

/// The number of the line `i` lines after line `first`, stopping at the largest
/// `usize`.
pub open spec fn line_number_at(first: nat, i: nat) -> nat {
    if first + i <= usize::MAX {
        first + i
    } else {
        usize::MAX as nat
    }
}

/// One line of a shown region: its number right-aligned in four columns, the line,
/// then carets from column `start_col` to column `end_col`.
pub open spec fn region_line(line: Seq<char>, number: nat, start_col: nat, end_col: nat) -> Seq<char> {
    pad_left(dec_digits(number), 4) + " | "@ + line + seq!['\n'] + "     | "@ + repeat_char(' ', start_col) + (if end_col
        > start_col {
        repeat_char('^', (end_col - start_col) as nat)
    } else {
        Seq::empty()
    }) + seq!['\n']
}

/// The first `count` lines of a shown region that starts at line `begin_no`, at
/// column `begin_off`, and ends at line `end_no`, at column `end_off`.
pub open spec fn region_body(
    lines: Seq<Seq<char>>,
    begin_no: nat,
    end_no: nat,
    begin_off: nat,
    end_off: nat,
    count: nat,
) -> Seq<char>
    decreases count,
{
    if count == 0 {
        Seq::empty()
    } else {
        let i = (count - 1) as nat;
        let number = line_number_at(begin_no, i);
        region_body(lines, begin_no, end_no, begin_off, end_off, i) + region_line(
            lines[i as int],
            number,
            if number == begin_no {
                begin_off
            } else {
                0
            },
            if number == end_no {
                end_off
            } else {
                lines[i as int].len()
            },
        )
    }
}

proof fn lemma_newlines_nonempty(offset: nat, data: Seq<char>)
    ensures
        spec_newlines(offset, data).len() >= 1,
    decreases data.len(),
{
    if data.len() > 0 {
        lemma_newlines_nonempty(offset, data.drop_last());
    }
}

fn last_entry_at_or_before(table: &Vec<(usize, String)>, index: usize) -> (r: usize)
    requires
        table@.len() >= 1,
    ensures
        r == last_at_or_before(table@.map_values(|p: (usize, String)| p.0 as nat), index as nat),
        r < table@.len(),
{
    let ghost positions = table@.map_values(|p: (usize, String)| p.0 as nat);
    let mut k: usize = table.len() - 1;
    proof {
        assert(positions.subrange(0, table@.len() as int) == positions);
    }
    while k > 0 && table[k].0 > index
        invariant
            k < table@.len(),
            positions.len() == table@.len(),
            forall|j: int| 0 <= j < table@.len() ==> #[trigger] positions[j] == table@[j].0 as nat,
            last_at_or_before(positions, index as nat) == last_at_or_before(
                positions.subrange(0, k + 1),
                index as nat,
            ),
        decreases k,
    {
        proof {
            let s = positions.subrange(0, k + 1);
            assert(s.drop_last() == positions.subrange(0, k as int));
            assert(s.last() == positions[k as int]);
        }
        k = k - 1;
    }
    proof {
        let s = positions.subrange(0, k + 1);
        if k > 0 {
            assert(s.last() == positions[k as int]);
        }
    }
    k
}

fn last_newline_at_or_before(table: &Vec<(usize, usize)>, index: usize) -> (r: usize)
    requires
        table@.len() >= 1,
    ensures
        r == last_at_or_before(line_table_view(table@).map_values(|p: (nat, nat)| p.0), index as nat),
        r < table@.len(),
{
    let ghost positions = line_table_view(table@).map_values(|p: (nat, nat)| p.0);
    let mut k: usize = table.len() - 1;
    proof {
        assert(positions.subrange(0, table@.len() as int) == positions);
    }
    while k > 0 && table[k].0 > index
        invariant
            k < table@.len(),
            positions.len() == table@.len(),
            forall|j: int| 0 <= j < table@.len() ==> #[trigger] positions[j] == table@[j].0 as nat,
            last_at_or_before(positions, index as nat) == last_at_or_before(
                positions.subrange(0, k + 1),
                index as nat,
            ),
        decreases k,
    {
        proof {
            let s = positions.subrange(0, k + 1);
            assert(s.drop_last() == positions.subrange(0, k as int));
            assert(s.last() == positions[k as int]);
        }
        k = k - 1;
    }
    proof {
        let s = positions.subrange(0, k + 1);
        if k > 0 {
            assert(s.last() == positions[k as int]);
        }
    }
    k
}

/// The lines of a text, as `str::lines` gives them: split at line feeds, without
/// a carriage return at the end of a line, and without an empty last line.
pub open spec fn spec_lines(s: Seq<char>) -> Seq<Seq<char>> {
    if s.len() == 0 {
        Seq::empty()
    } else {
        let pieces = split_at_newlines(s);
        let ps = if s.last() == '\n' {
            pieces.drop_last()
        } else {
            pieces
        };
        ps.map_values(|p: Seq<char>| strip_cr(p))
    }
}

/// The pieces of a text between line feeds.
pub open spec fn split_at_newlines(s: Seq<char>) -> Seq<Seq<char>>
    decreases s.len(),
{
    if s.len() == 0 {
        seq![Seq::empty()]
    } else {
        let rest = split_at_newlines(s.drop_last());
        if s.last() == '\n' {
            rest.push(Seq::empty())
        } else {
            rest.update(rest.len() - 1, rest.last().push(s.last()))
        }
    }
}

pub open spec fn strip_cr(p: Seq<char>) -> Seq<char> {
    if p.len() > 0 && p.last() == '\r' {
        p.drop_last()
    } else {
        p
    }
}

proof fn lemma_split_nonempty(s: Seq<char>)
    ensures
        split_at_newlines(s).len() >= 1,
    decreases s.len(),
{
    if s.len() > 0 {
        lemma_split_nonempty(s.drop_last());
    }
}

/// The lines of a text (`str::lines`).
pub fn split_lines(s: &Vec<char>) -> (r: Vec<Vec<char>>)
    ensures
        r@.map_values(|l: Vec<char>| l@) == spec_lines(s@),
{
    let mut pieces: Vec<Vec<char>> = Vec::new();
    pieces.push(Vec::new());
    let mut i: usize = 0;
    proof {
        assert(s@.subrange(0, 0) == Seq::<char>::empty());
        assert(pieces@.map_values(|l: Vec<char>| l@) =~= split_at_newlines(s@.subrange(0, 0)));
    }
    while i < s.len()
        invariant
            i <= s@.len(),
            pieces@.len() >= 1,
            pieces@.map_values(|l: Vec<char>| l@) == split_at_newlines(s@.subrange(0, i as int)),
        decreases s@.len() - i,
    {
        let ghost before = pieces@.map_values(|l: Vec<char>| l@);
        proof {
            let t = s@.subrange(0, i + 1);
            assert(t.drop_last() == s@.subrange(0, i as int));
            assert(t.last() == s@[i as int]);
        }
        if s[i] == '\n' {
            pieces.push(Vec::new());
            proof {
                assert(pieces@.map_values(|l: Vec<char>| l@) =~= before.push(Seq::empty()));
            }
        } else {
            let last = pieces.len() - 1;
            let mut p = pieces.pop().unwrap();
            p.push(s[i]);
            pieces.push(p);
            proof {
                assert(pieces@.map_values(|l: Vec<char>| l@) =~= before.update(
                    before.len() - 1,
                    before.last().push(s@[i as int]),
                ));
            }
        }
        i = i + 1;
    }
    assert(s@.subrange(0, s@.len() as int) == s@);
    let ghost all = pieces@.map_values(|l: Vec<char>| l@);
    let mut result: Vec<Vec<char>> = Vec::new();
    if s.len() == 0 {
        assert(result@.map_values(|l: Vec<char>| l@) =~= spec_lines(s@));
        return result;
    }
    let count = if s[s.len() - 1] == '\n' {
        pieces.len() - 1
    } else {
        pieces.len()
    };
    let ghost ps = if s@.last() == '\n' {
        all.drop_last()
    } else {
        all
    };
    assert(ps.len() == count);
    let mut j: usize = 0;
    while j < count
        invariant
            j <= count <= pieces@.len(),
            count == ps.len(),
            all == pieces@.map_values(|l: Vec<char>| l@),
            forall|k: int| 0 <= k < ps.len() ==> #[trigger] ps[k] == all[k],
            result@.map_values(|l: Vec<char>| l@) == ps.subrange(0, j as int).map_values(
                |p: Seq<char>| strip_cr(p),
            ),
        decreases count - j,
    {
        let piece = &pieces[j];
        let mut line: Vec<char> = piece.clone();
        if line.len() > 0 && line[line.len() - 1] == '\r' {
            line.pop();
        }
        proof {
            assert(piece@ == all[j as int]);
            assert(line@ == strip_cr(ps[j as int]));
        }
        let ghost before_r = result@;
        result.push(line);
        j = j + 1;
        proof {
            assert(result@.map_values(|l: Vec<char>| l@) =~= before_r.map_values(|l: Vec<char>| l@).push(line@));
            assert(ps.subrange(0, j as int) =~= ps.subrange(0, j - 1).push(ps[j - 1]));
            assert(result@.map_values(|l: Vec<char>| l@) =~= ps.subrange(0, j as int).map_values(
                |p: Seq<char>| strip_cr(p),
            ));
        }
    }
    assert(ps.subrange(0, count as int) == ps);
    result
}

} // verus!
