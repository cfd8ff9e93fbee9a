use vstd::prelude::*;
use crate::edits::{is_snapshot, lemma_snapshot_restores, map_after};

verus! {

// ---------------------------------------------------------------------------
// Text model: lines, whitespace-separated words, decimal integers
// ---------------------------------------------------------------------------

/// Unicode `White_Space` (what `char::is_whitespace` accepts).
pub open spec fn is_ws(c: char) -> bool {
    ('\u{9}' <= c && c <= '\u{d}') || c == ' ' || c == '\u{85}' || c == '\u{a0}' || c
        == '\u{1680}' || ('\u{2000}' <= c && c <= '\u{200a}') || c == '\u{2028}' || c == '\u{2029}'
        || c == '\u{202f}' || c == '\u{205f}' || c == '\u{3000}'
}

/// Whether `c` is a whitespace character (`char::is_whitespace`).
pub fn is_whitespace(c: char) -> (b: bool)
    ensures
        b == is_ws(c),
{
    ('\u{9}' <= c && c <= '\u{d}') || c == ' ' || c == '\u{85}' || c == '\u{a0}' || c
        == '\u{1680}' || ('\u{2000}' <= c && c <= '\u{200a}') || c == '\u{2028}' || c == '\u{2029}'
        || c == '\u{202f}' || c == '\u{205f}' || c == '\u{3000}'
}

/// The text split at every `'\n'` (a text without a newline is one line;
/// a trailing newline leaves an empty last line).
pub open spec fn lines_of(s: Seq<char>) -> Seq<Seq<char>>
    decreases s.len(),
{
    if s.len() == 0 {
        seq![Seq::<char>::empty()]
    } else {
        let ls = lines_of(s.drop_last());
        if s.last() == '\n' {
            ls.push(Seq::<char>::empty())
        } else {
            ls.update(ls.len() - 1, ls.last().push(s.last()))
        }
    }
}

/// Words of a text so far, and whether it ends inside a word.
pub open spec fn ws_state(s: Seq<char>) -> (Seq<Seq<char>>, bool)
    decreases s.len(),
{
    if s.len() == 0 {
        (Seq::empty(), false)
    } else {
        let (w, inw) = ws_state(s.drop_last());
        let c = s.last();
        if is_ws(c) {
            (w, false)
        } else if inw {
            (w.update(w.len() - 1, w.last().push(c)), true)
        } else {
            (w.push(seq![c]), true)
        }
    }
}

/// The maximal runs of non-whitespace characters (`str::split_whitespace`).
pub open spec fn words_of(s: Seq<char>) -> Seq<Seq<char>> {
    ws_state(s).0
}

pub open spec fn is_digit(c: char) -> bool {
    '0' <= c && c <= '9'
}

pub open spec fn all_digits(s: Seq<char>) -> bool {
    forall|i: int| 0 <= i < s.len() ==> is_digit(#[trigger] s[i])
}

pub open spec fn digit_val(c: char) -> int {
    c as int - '0' as int
}

/// Decimal value of a digit string.
pub open spec fn digits_val(s: Seq<char>) -> int
    decreases s.len(),
{
    if s.len() == 0 {
        0
    } else {
        digits_val(s.drop_last()) * 10 + digit_val(s.last())
    }
}

/// `u32::from_str`: an optional `+`, then one or more decimal digits, the
/// value in range.
pub open spec fn parse_u32(s: Seq<char>) -> Option<u32> {
    let body = if s.len() > 0 && s[0] == '+' {
        s.drop_first()
    } else {
        s
    };
    if body.len() == 0 || !all_digits(body) || digits_val(body) > u32::MAX {
        None
    } else {
        Some(digits_val(body) as u32)
    }
}

/// `i32::from_str`: an optional `+` or `-`, then one or more decimal
/// digits, the value in range.
pub open spec fn parse_i32(s: Seq<char>) -> Option<i32> {
    let neg = s.len() > 0 && s[0] == '-';
    let body = if s.len() > 0 && (s[0] == '-' || s[0] == '+') {
        s.drop_first()
    } else {
        s
    };
    let v = if neg {
        -digits_val(body)
    } else {
        digits_val(body)
    };
    if body.len() == 0 || !all_digits(body) || v < i32::MIN || v > i32::MAX {
        None
    } else {
        Some(v as i32)
    }
}

// ---------------------------------------------------------------------------
// The save format
// ---------------------------------------------------------------------------

/// What a save file holds, in the terms this crate reads: the seed, the
/// five pose words of the last `player` line (x, y, z, yaw, pitch, still as
/// text: they are floating point), and the edits in file order.
pub struct SaveRecord {
    pub seed: u32,
    pub pose: Option<Vec<Vec<char>>>,
    pub edits: Vec<((i32, i32, i32), bool)>,
}

/// A save file's content.
#[verifier::ext_equal]
pub struct SaveModel {
    pub seed: u32,
    pub pose: Option<Seq<Seq<char>>>,
    pub edits: Seq<((i32, i32, i32), bool)>,
}

pub open spec fn words_view(v: Vec<Vec<char>>) -> Seq<Seq<char>> {
    v@.map_values(|w: Vec<char>| w@)
}

impl SaveRecord {
    pub open spec fn model(&self) -> SaveModel {
        SaveModel {
            seed: self.seed,
            pose: match self.pose {
                Some(p) => Some(words_view(p)),
                None => None,
            },
            edits: self.edits@,
        }
    }
}

pub open spec fn kw_seed() -> Seq<char> {
    seq!['s', 'e', 'e', 'd']
}

pub open spec fn kw_player() -> Seq<char> {
    seq!['p', 'l', 'a', 'y', 'e', 'r']
}

pub open spec fn kw_edit() -> Seq<char> {
    seq!['e']
}

pub open spec fn kw_one() -> Seq<char> {
    seq!['1']
}

/// Before any line: seed 0, no pose, no edits.
pub open spec fn initial_model() -> SaveModel {
    SaveModel { seed: 0, pose: None, edits: Seq::empty() }
}

/// The effect of one line, given its words: `seed S` sets the seed (0 if S
/// is not a `u32`); `player X Y Z YAW PITCH` sets the pose; `e X Y Z S`
/// appends an edit when X, Y, Z are `i32` (solid iff S is `1`); any other
/// line is ignored.
pub open spec fn apply_line(m: SaveModel, w: Seq<Seq<char>>) -> SaveModel {
    if w.len() == 2 && w[0] == kw_seed() {
        SaveModel {
            seed: match parse_u32(w[1]) {
                Some(v) => v,
                None => 0,
            },
            ..m
        }
    } else if w.len() == 6 && w[0] == kw_player() {
        SaveModel { pose: Some(w.subrange(1, 6)), ..m }
    } else if w.len() == 5 && w[0] == kw_edit() {
        match (parse_i32(w[1]), parse_i32(w[2]), parse_i32(w[3])) {
            (Some(x), Some(y), Some(z)) => SaveModel {
                edits: m.edits.push(((x, y, z), w[4] == kw_one())),
                ..m
            },
            _ => m,
        }
    } else {
        m
    }
}

/// The model after the given lines.
pub open spec fn parse_lines(ls: Seq<Seq<char>>) -> SaveModel
    decreases ls.len(),
{
    if ls.len() == 0 {
        initial_model()
    } else {
        apply_line(parse_lines(ls.drop_last()), words_of(ls.last()))
    }
}

/// The content of a save file's text.
pub open spec fn parse_save_spec(text: Seq<char>) -> SaveModel {
    parse_lines(lines_of(text))
}

// ---------------------------------------------------------------------------
// Reading
// ---------------------------------------------------------------------------

proof fn lemma_lines_nonempty(s: Seq<char>)
    ensures
        lines_of(s).len() >= 1,
    decreases s.len(),
{
    if s.len() > 0 {
        lemma_lines_nonempty(s.drop_last());
    }
}

/// Split a text into lines at every `'\n'`.
pub fn split_lines(text: &Vec<char>) -> (lines: Vec<Vec<char>>)
    ensures
        words_view(lines) == lines_of(text@),
{
    let n = text.len();
    let mut lines: Vec<Vec<char>> = Vec::new();
    let mut cur: Vec<char> = Vec::new();
    let mut i: usize = 0;
    while i < n
        invariant
            i <= n,
            n == text@.len(),
            lines_of(text@.take(i as int)) == words_view(lines).push(cur@),
        decreases n - i,
    {
        let c = text[i];
        proof {
            assert(text@.take(i + 1).drop_last() =~= text@.take(i as int));
            assert(text@.take(i + 1).last() == c);
        }
        if c == '\n' {
            let mut done: Vec<char> = Vec::new();
            std::mem::swap(&mut done, &mut cur);
            let ghost before = words_view(lines);
            lines.push(done);
            proof {
                assert(words_view(lines) =~= before.push(done@));
                assert(words_view(lines).push(cur@) =~= lines_of(text@.take(i + 1)));
            }
        } else {
            let ghost before = cur@;
            cur.push(c);
            proof {
                let ls = lines_of(text@.take(i as int));
                assert(ls.len() - 1 == words_view(lines).len());
                assert(words_view(lines).push(cur@) =~= ls.update(ls.len() - 1, ls.last().push(c)));
            }
        }
        i = i + 1;
    }
    let ghost before = words_view(lines);
    lines.push(cur);
    proof {
        assert(text@.take(n as int) =~= text@);
        assert(words_view(lines) =~= before.push(words_view(lines).last()));
    }
    lines
}

/// Split a line into its whitespace-separated words.
pub fn split_words(line: &Vec<char>) -> (words: Vec<Vec<char>>)
    ensures
        words_view(words) == words_of(line@),
{
    let n = line.len();
    let mut words: Vec<Vec<char>> = Vec::new();
    let mut cur: Vec<char> = Vec::new();
    let mut inw = false;
    let mut i: usize = 0;
    while i < n
        invariant
            i <= n,
            n == line@.len(),
            ws_state(line@.take(i as int)) == (if inw {
                words_view(words).push(cur@)
            } else {
                words_view(words)
            }, inw),
            !inw ==> cur@.len() == 0,
        decreases n - i,
    {
        let c = line[i];
        proof {
            assert(line@.take(i + 1).drop_last() =~= line@.take(i as int));
            assert(line@.take(i + 1).last() == c);
        }
        if is_whitespace(c) {
            if inw {
                let mut done: Vec<char> = Vec::new();
                std::mem::swap(&mut done, &mut cur);
                let ghost before = words_view(words);
                words.push(done);
                proof {
                    assert(words_view(words) =~= before.push(done@));
                }
            }
            inw = false;
        } else {
            let ghost was_in = inw;
            let ghost before = words_view(words);
            let ghost old_cur = cur@;
            cur.push(c);
            inw = true;
            proof {
                if was_in {
                    let w = before.push(old_cur);
                    assert(words_view(words).push(cur@) =~= w.update(w.len() - 1, w.last().push(c)));
                } else {
                    assert(old_cur =~= Seq::<char>::empty());
                    assert(cur@ =~= seq![c]);
                }
            }
        }
        i = i + 1;
    }
    proof {
        assert(line@.take(n as int) =~= line@);
    }
    if inw {
        let ghost before = words_view(words);
        words.push(cur);
        proof {
            assert(words_view(words) =~= before.push(words_view(words).last()));
        }
    }
    words
}

/// Value of a digit string, capped: the exact value when it is at most
/// `2^32`, otherwise `None`.
fn digits_value(s: &Vec<char>, from: usize) -> (r: Option<u64>)
    requires
        from <= s@.len(),
        all_digits(s@.subrange(from as int, s@.len() as int)),
    ensures
        match r {
            Some(v) => v == digits_val(s@.subrange(from as int, s@.len() as int)) && v <= 0x1_0000_0000u64,
            None => digits_val(s@.subrange(from as int, s@.len() as int)) > 0x1_0000_0000u64,
        },
{
    let n = s.len();
    let mut acc: u64 = 0;
    let mut big = false;
    let mut i: usize = from;
    while i < n
        invariant
            from <= i <= n,
            n == s@.len(),
            all_digits(s@.subrange(from as int, n as int)),
            !big ==> acc == digits_val(s@.subrange(from as int, i as int)) && acc <= 0x1_0000_0000u64,
            big ==> digits_val(s@.subrange(from as int, i as int)) > 0x1_0000_0000u64,
        decreases n - i,
    {
        let c = s[i];
        proof {
            assert(s@.subrange(from as int, i + 1).drop_last() =~= s@.subrange(from as int, i as int));
            assert(s@.subrange(from as int, n as int)[i - from] == c);
            assert(is_digit(c));
        }
        let d = (c as u32 - '0' as u32) as u64;
        if !big {
            let next = acc * 10 + d;
            if next > 0x1_0000_0000u64 {
                big = true;
            } else {
                acc = next;
            }
        }
        proof {
            lemma_digits_val_nonneg(s@.subrange(from as int, i as int));
        }
        i = i + 1;
    }
    if big {
        None
    } else {
        Some(acc)
    }
}

proof fn lemma_digits_val_nonneg(s: Seq<char>)
    requires
        all_digits(s),
    ensures
        digits_val(s) >= 0,
    decreases s.len(),
{
    if s.len() > 0 {
        assert(all_digits(s.drop_last()));
        lemma_digits_val_nonneg(s.drop_last());
        assert(is_digit(s[s.len() - 1]));
    }
}

/// Whether every character from `from` on is a decimal digit.
fn digits_from(s: &Vec<char>, from: usize) -> (b: bool)
    requires
        from <= s@.len(),
    ensures
        b == all_digits(s@.subrange(from as int, s@.len() as int)),
{
    let n = s.len();
    let mut i: usize = from;
    while i < n
        invariant
            from <= i <= n,
            n == s@.len(),
            forall|j: int| from <= j < i ==> is_digit(#[trigger] s@[j]),
        decreases n - i,
    {
        if !(s[i] >= '0' && s[i] <= '9') {
            assert(!is_digit(s@.subrange(from as int, n as int)[i - from]));
            return false;
        }
        i = i + 1;
    }
    assert forall|j: int| 0 <= j < s@.subrange(from as int, n as int).len() implies is_digit(
        #[trigger] s@.subrange(from as int, n as int)[j],
    ) by {
        assert(s@.subrange(from as int, n as int)[j] == s@[from + j]);
    }
    true
}

/// `s.parse::<u32>()`.
pub fn parse_u32_exec(s: &Vec<char>) -> (r: Option<u32>)
    ensures
        r == parse_u32(s@),
{
    let from: usize = if s.len() > 0 && s[0] == '+' {
        1
    } else {
        0
    };
    proof {
        if from == 1 {
            assert(s@.drop_first() =~= s@.subrange(1, s@.len() as int));
        } else {
            assert(s@ =~= s@.subrange(0, s@.len() as int));
        }
    }
    if from == s.len() || !digits_from(s, from) {
        return None;
    }
    match digits_value(s, from) {
        Some(v) => {
            if v > 0xFFFF_FFFFu64 {
                None
            } else {
                Some(v as u32)
            }
        },
        None => None,
    }
}

/// `s.parse::<i32>()`.
pub fn parse_i32_exec(s: &Vec<char>) -> (r: Option<i32>)
    ensures
        r == parse_i32(s@),
{
    let neg = s.len() > 0 && s[0] == '-';
    let from: usize = if s.len() > 0 && (s[0] == '-' || s[0] == '+') {
        1
    } else {
        0
    };
    proof {
        if from == 1 {
            assert(s@.drop_first() =~= s@.subrange(1, s@.len() as int));
        } else {
            assert(s@ =~= s@.subrange(0, s@.len() as int));
        }
    }
    if from == s.len() || !digits_from(s, from) {
        return None;
    }
    match digits_value(s, from) {
        Some(v) => {
            if neg {
                if v > 0x8000_0000u64 {
                    None
                } else {
                    Some((0i64 - v as i64) as i32)
                }
            } else {
                if v > 0x7FFF_FFFFu64 {
                    None
                } else {
                    Some(v as i32)
                }
            }
        },
        None => None,
    }
}

fn is_kw_seed(w: &Vec<char>) -> (b: bool)
    ensures
        b == (w@ == kw_seed()),
{
    let b = w.len() == 4 && w[0] == 's' && w[1] == 'e' && w[2] == 'e' && w[3] == 'd';
    proof {
        if b {
            assert(w@ =~= kw_seed());
        }
    }
    b
}

fn is_kw_player(w: &Vec<char>) -> (b: bool)
    ensures
        b == (w@ == kw_player()),
{
    let b = w.len() == 6 && w[0] == 'p' && w[1] == 'l' && w[2] == 'a' && w[3] == 'y' && w[4] == 'e'
        && w[5] == 'r';
    proof {
        if b {
            assert(w@ =~= kw_player());
        }
    }
    b
}

fn is_single(w: &Vec<char>, c: char) -> (b: bool)
    ensures
        b == (w@ == seq![c]),
{
    let b = w.len() == 1 && w[0] == c;
    proof {
        if b {
            assert(w@ =~= seq![c]);
        }
    }
    b
}

/// Apply one line, given as its words, to the record read so far.
fn apply_line_exec(rec: &mut SaveRecord, words: Vec<Vec<char>>)
    ensures
        final(rec).model() == apply_line(old(rec).model(), words_view(words)),
{
    let ghost w = words_view(words);
    let n = words.len();
    if n == 2 && is_kw_seed(&words[0]) {
        rec.seed = match parse_u32_exec(&words[1]) {
            Some(v) => v,
            None => 0,
        };
    } else if n == 6 && is_kw_player(&words[0]) {
        let mut words = words;
        let pose = words.split_off(1);
        proof {
            assert(words_view(pose) =~= w.subrange(1, 6));
        }
        rec.pose = Some(pose);
    } else if n == 5 && is_single(&words[0], 'e') {
        let x = parse_i32_exec(&words[1]);
        let y = parse_i32_exec(&words[2]);
        let z = parse_i32_exec(&words[3]);
        match (x, y, z) {
            (Some(x), Some(y), Some(z)) => {
                let one = is_single(&words[4], '1');
                rec.edits.push(((x, y, z), one));
            },
            _ => {},
        }
    }
    proof {
        assert(final(rec).model() =~= apply_line(old(rec).model(), w));
    }
}

/// Read the content of a save file's text: the seed, the pose words and
/// the edits (see [`apply_line`] for what each line does).
pub fn parse_save(text: &Vec<char>) -> (rec: SaveRecord)
    ensures
        rec.model() == parse_save_spec(text@),
{
    let lines = split_lines(text);
    let ghost ls = words_view(lines);
    let mut rec = SaveRecord { seed: 0, pose: None, edits: Vec::new() };
    assert(rec.model() =~= initial_model());
    let n = lines.len();
    let mut i: usize = 0;
    while i < n
        invariant
            i <= n,
            n == ls.len(),
            ls == words_view(lines),
            rec.model() == parse_lines(ls.take(i as int)),
        decreases n - i,
    {
        let words = split_words(&lines[i]);
        proof {
            assert(ls.take(i + 1).drop_last() =~= ls.take(i as int));
            assert(ls.take(i + 1).last() == lines@[i as int]@);
        }
        apply_line_exec(&mut rec, words);
        i = i + 1;
    }
    proof {
        assert(ls.take(n as int) =~= ls);
    }
    rec
}

// ---------------------------------------------------------------------------
// Writing
// ---------------------------------------------------------------------------

pub open spec fn digit_char(d: int) -> char {
    ('0' as int + d) as char
}

/// Decimal digits of `n`, most significant first, no leading zeros.
pub open spec fn dec(n: nat) -> Seq<char>
    decreases n,
{
    if n < 10 {
        seq![digit_char(n as int)]
    } else {
        dec(n / 10).push(digit_char((n % 10) as int))
    }
}

/// `format!("{}", n)` for a `u32`.
pub open spec fn fmt_u32(n: u32) -> Seq<char> {
    dec(n as nat)
}

/// `format!("{}", n)` for an `i32`.
pub open spec fn fmt_i32(n: i32) -> Seq<char> {
    if n < 0 {
        seq!['-'] + dec((-n) as nat)
    } else {
        dec(n as nat)
    }
}

pub open spec fn sp() -> Seq<char> {
    seq![' ']
}

/// `seed S`.
pub open spec fn seed_line(seed: u32) -> Seq<char> {
    kw_seed() + sp() + fmt_u32(seed)
}

/// `player X Y Z YAW PITCH`.
pub open spec fn player_line(pose: Seq<Seq<char>>) -> Seq<char> {
    kw_player() + sp() + pose[0] + sp() + pose[1] + sp() + pose[2] + sp() + pose[3] + sp() + pose[4]
}

/// `e X Y Z S` with S `1` for a placed block, `0` for a hole.
pub open spec fn edit_line(e: ((i32, i32, i32), bool)) -> Seq<char> {
    kw_edit() + sp() + fmt_i32(e.0.0) + sp() + fmt_i32(e.0.1) + sp() + fmt_i32(e.0.2) + sp() + if e.1 {
        seq!['1']
    } else {
        seq!['0']
    }
}

/// The lines of a save file: seed, player, then one line per edit.
pub open spec fn save_lines(seed: u32, pose: Seq<Seq<char>>, edits: Seq<((i32, i32, i32), bool)>) -> Seq<Seq<char>> {
    seq![seed_line(seed), player_line(pose)] + edits.map_values(|e: ((i32, i32, i32), bool)| edit_line(e))
}

/// Lines joined, each followed by `'\n'`.
pub open spec fn join_lines(ls: Seq<Seq<char>>) -> Seq<char>
    decreases ls.len(),
{
    if ls.len() == 0 {
        Seq::empty()
    } else {
        join_lines(ls.drop_last()) + ls.last() + seq!['\n']
    }
}

/// The text of a save file.
pub open spec fn render_save_spec(seed: u32, pose: Seq<Seq<char>>, edits: Seq<((i32, i32, i32), bool)>) -> Seq<char> {
    join_lines(save_lines(seed, pose, edits))
}

fn digit(d: u64) -> (c: char)
    requires
        d < 10,
    ensures
        c == digit_char(d as int),
{
    if d == 0 {
        '0'
    } else if d == 1 {
        '1'
    } else if d == 2 {
        '2'
    } else if d == 3 {
        '3'
    } else if d == 4 {
        '4'
    } else if d == 5 {
        '5'
    } else if d == 6 {
        '6'
    } else if d == 7 {
        '7'
    } else if d == 8 {
        '8'
    } else {
        '9'
    }
}

fn dec_exec(n: u64) -> (r: Vec<char>)
    ensures
        r@ == dec(n as nat),
    decreases n,
{
    if n < 10 {
        let mut v: Vec<char> = Vec::new();
        v.push(digit(n));
        v
    } else {
        let mut v = dec_exec(n / 10);
        v.push(digit(n % 10));
        v
    }
}

fn push_all(out: &mut Vec<char>, s: &Vec<char>)
    ensures
        final(out)@ == old(out)@ + s@,
{
    let n = s.len();
    let mut i: usize = 0;
    while i < n
        invariant
            i <= n,
            n == s@.len(),
            out@ == old(out)@ + s@.take(i as int),
        decreases n - i,
    {
        out.push(s[i]);
        i = i + 1;
        assert(out@ =~= old(out)@ + s@.take(i as int));
    }
    assert(s@.take(n as int) =~= s@);
}

fn push_i32(out: &mut Vec<char>, n: i32)
    ensures
        final(out)@ == old(out)@ + fmt_i32(n),
{
    if n < 0 {
        out.push('-');
        let d = dec_exec((0i64 - n as i64) as u64);
        push_all(out, &d);
        assert(final(out)@ =~= old(out)@ + fmt_i32(n));
    } else {
        let d = dec_exec(n as u64);
        push_all(out, &d);
    }
}

proof fn lemma_join_step(ls: Seq<Seq<char>>, k: int)
    requires
        0 <= k < ls.len(),
    ensures
        join_lines(ls.take(k + 1)) == join_lines(ls.take(k)) + ls[k] + seq!['\n'],
{
    assert(ls.take(k + 1).drop_last() =~= ls.take(k));
    assert(ls.take(k + 1).last() == ls[k]);
}

/// Write a save file's text: `seed S`, `player X Y Z YAW PITCH` with the
/// five given pose words, and `e X Y Z S` per edit, each line ending in a
/// newline.
pub fn render_save(seed: u32, pose: &Vec<Vec<char>>, edits: &Vec<((i32, i32, i32), bool)>) -> (text: Vec<char>)
    requires
        pose@.len() == 5,
    ensures
        text@ == render_save_spec(seed, words_view(*pose), edits@),
{
    let ghost ls = save_lines(seed, words_view(*pose), edits@);
    let mut out: Vec<char> = Vec::new();
    // seed line
    out.push('s');
    out.push('e');
    out.push('e');
    out.push('d');
    out.push(' ');
    let d = dec_exec(seed as u64);
    push_all(&mut out, &d);
    out.push('\n');
    proof {
        assert(ls.take(1).drop_last() =~= Seq::<Seq<char>>::empty());
        assert(ls.take(1).last() == seed_line(seed));
        assert(join_lines(ls.take(1).drop_last()) =~= Seq::<char>::empty());
        assert(out@ =~= seed_line(seed) + seq!['\n']);
        assert(out@ =~= join_lines(ls.take(1)));
    }
    // player line
    out.push('p');
    out.push('l');
    out.push('a');
    out.push('y');
    out.push('e');
    out.push('r');
    let mut k: usize = 0;
    while k < 5
        invariant
            k <= 5,
            pose@.len() == 5,
            ls == save_lines(seed, words_view(*pose), edits@),
            out@ == join_lines(ls.take(1)) + kw_player() + {
                let p = words_view(*pose);
                if k == 0 {
                    Seq::<char>::empty()
                } else if k == 1 {
                    sp() + p[0]
                } else if k == 2 {
                    sp() + p[0] + sp() + p[1]
                } else if k == 3 {
                    sp() + p[0] + sp() + p[1] + sp() + p[2]
                } else if k == 4 {
                    sp() + p[0] + sp() + p[1] + sp() + p[2] + sp() + p[3]
                } else {
                    sp() + p[0] + sp() + p[1] + sp() + p[2] + sp() + p[3] + sp() + p[4]
                }
            },
        decreases 5 - k,
    {
        let ghost before = out@;
        out.push(' ');
        push_all(&mut out, &pose[k]);
        proof {
            assert(words_view(*pose)[k as int] == pose@[k as int]@);
            assert(out@ =~= before + sp() + words_view(*pose)[k as int]);
        }
        k = k + 1;
    }
    out.push('\n');
    proof {
        assert(ls.take(2).drop_last() =~= ls.take(1));
        assert(out@ =~= join_lines(ls.take(2)));
    }
    let n = edits.len();
    let mut i: usize = 0;
    while i < n
        invariant
            i <= n,
            n == edits@.len(),
            ls == save_lines(seed, words_view(*pose), edits@),
            ls.len() == n + 2,
            out@ == join_lines(ls.take(i + 2)),
        decreases n - i,
    {
        let ((x, y, z), solid) = edits[i];
        let ghost before = out@;
        out.push('e');
        out.push(' ');
        push_i32(&mut out, x);
        out.push(' ');
        push_i32(&mut out, y);
        out.push(' ');
        push_i32(&mut out, z);
        out.push(' ');
        out.push(if solid { '1' } else { '0' });
        out.push('\n');
        proof {
            assert(ls[i + 2] == edit_line(edits@[i as int]));
            assert(out@ =~= before + edit_line(edits@[i as int]) + seq!['\n']);
            lemma_join_step(ls, i + 2);
        }
        i = i + 1;
    }
    proof {
        assert(ls.take(n + 2) =~= ls);
    }
    out
}

// ---------------------------------------------------------------------------
// Writing then reading gives back what was written
// ---------------------------------------------------------------------------

pub open spec fn no_ws(s: Seq<char>) -> bool {
    forall|i: int| 0 <= i < s.len() ==> !is_ws(#[trigger] s[i])
}

pub open spec fn no_nl(s: Seq<char>) -> bool {
    forall|i: int| 0 <= i < s.len() ==> #[trigger] s[i] != '\n'
}

proof fn lemma_no_nl_add(a: Seq<char>, b: Seq<char>)
    requires
        no_nl(a),
        no_nl(b),
    ensures
        no_nl(a + b),
{
    assert forall|i: int| 0 <= i < (a + b).len() implies #[trigger] (a + b)[i] != '\n' by {
        if i < a.len() {
            assert((a + b)[i] == a[i]);
        } else {
            assert((a + b)[i] == b[i - a.len()]);
        }
    }
}

proof fn lemma_no_ws_no_nl(a: Seq<char>)
    requires
        no_ws(a),
    ensures
        no_nl(a),
{
    assert forall|i: int| 0 <= i < a.len() implies #[trigger] a[i] != '\n' by {
        assert(!is_ws(a[i]));
    }
}

proof fn lemma_lines_append(x: Seq<char>, q: Seq<char>)
    requires
        no_nl(q),
    ensures
        lines_of(x + q) == lines_of(x).update(lines_of(x).len() - 1, lines_of(x).last() + q),
    decreases q.len(),
{
    lemma_lines_nonempty(x);
    if q.len() == 0 {
        assert(x + q =~= x);
        assert(lines_of(x).last() + q =~= lines_of(x).last());
        assert(lines_of(x).update(lines_of(x).len() - 1, lines_of(x).last() + q) =~= lines_of(x));
    } else {
        let q1 = q.drop_last();
        let c = q.last();
        assert(c == q[q.len() - 1]);
        assert(c != '\n');
        lemma_lines_append(x, q1);
        assert((x + q).drop_last() =~= x + q1);
        assert((x + q).last() == c);
        let l0 = lines_of(x);
        assert((l0.last() + q1).push(c) =~= l0.last() + q);
        assert(lines_of(x + q) =~= l0.update(l0.len() - 1, l0.last() + q));
    }
}

proof fn lemma_lines_join(ls: Seq<Seq<char>>)
    requires
        forall|i: int| 0 <= i < ls.len() ==> no_nl(#[trigger] ls[i]),
    ensures
        lines_of(join_lines(ls)) == ls.push(Seq::<char>::empty()),
    decreases ls.len(),
{
    if ls.len() == 0 {
        assert(lines_of(join_lines(ls)) =~= ls.push(Seq::<char>::empty()));
    } else {
        let l1 = ls.drop_last();
        let last = ls.last();
        assert forall|i: int| 0 <= i < l1.len() implies no_nl(#[trigger] l1[i]) by {
            assert(l1[i] == ls[i]);
        }
        lemma_lines_join(l1);
        let x = join_lines(l1);
        assert(no_nl(ls[ls.len() - 1]));
        lemma_lines_append(x, last);
        let t = join_lines(ls);
        assert(t == x + last + seq!['\n']);
        assert(t.drop_last() =~= x + last);
        assert(t.last() == '\n');
        assert(lines_of(x + last) =~= l1.push(last));
        assert(l1.push(last) =~= ls);
    }
}

proof fn lemma_ws_word(y: Seq<char>, w: Seq<char>)
    requires
        !ws_state(y).1,
        w.len() > 0,
        no_ws(w),
    ensures
        ws_state(y + w) == (ws_state(y).0.push(w), true),
    decreases w.len(),
{
    let c = w.last();
    assert(!is_ws(w[w.len() - 1]));
    if w.len() == 1 {
        assert((y + w).drop_last() =~= y);
        assert((y + w).last() == c);
        assert(seq![c] =~= w);
    } else {
        let w1 = w.drop_last();
        assert forall|i: int| 0 <= i < w1.len() implies !is_ws(#[trigger] w1[i]) by {
            assert(w1[i] == w[i]);
        }
        lemma_ws_word(y, w1);
        assert((y + w).drop_last() =~= y + w1);
        assert((y + w).last() == c);
        let ws = ws_state(y).0.push(w1);
        assert(ws.last() == w1);
        assert(w1.push(c) =~= w);
        assert(ws.update(ws.len() - 1, ws.last().push(c)) =~= ws_state(y).0.push(w));
    }
}

/// Words of `x`, a space, then a word `w`.
proof fn lemma_words_then(x: Seq<char>, w: Seq<char>)
    requires
        w.len() > 0,
        no_ws(w),
    ensures
        ws_state(x + sp() + w) == (words_of(x).push(w), true),
{
    assert((x + sp()).drop_last() =~= x);
    assert((x + sp()).last() == ' ');
    assert(is_ws(' '));
    lemma_ws_word(x + sp(), w);
}

proof fn lemma_words_single(w: Seq<char>)
    requires
        w.len() > 0,
        no_ws(w),
    ensures
        ws_state(w) == (seq![w], true),
{
    lemma_ws_word(Seq::empty(), w);
    assert(Seq::<char>::empty() + w =~= w);
    assert(Seq::<Seq<char>>::empty().push(w) =~= seq![w]);
}

proof fn lemma_dec(n: nat)
    ensures
        dec(n).len() > 0,
        all_digits(dec(n)),
        digits_val(dec(n)) == n,
        no_ws(dec(n)),
    decreases n,
{
    if n < 10 {
        assert(is_digit(digit_char(n as int)));
        assert(digits_val(dec(n)) == digits_val(dec(n).drop_last()) * 10 + digit_val(dec(n).last()));
        assert(dec(n).drop_last() =~= Seq::<char>::empty());
    } else {
        lemma_dec(n / 10);
        let d = digit_char((n % 10) as int);
        assert(is_digit(d));
        assert(dec(n).drop_last() =~= dec(n / 10));
        assert forall|i: int| 0 <= i < dec(n).len() implies is_digit(#[trigger] dec(n)[i]) by {
            if i < dec(n / 10).len() {
                assert(dec(n)[i] == dec(n / 10)[i]);
            }
        }
    }
    assert forall|i: int| 0 <= i < dec(n).len() implies !is_ws(#[trigger] dec(n)[i]) by {
        assert(is_digit(dec(n)[i]));
    }
}

/// The decimal text of a `u32` reads back as that number, and holds no
/// whitespace.
pub proof fn lemma_fmt_u32(n: u32)
    ensures
        parse_u32(fmt_u32(n)) == Some(n),
        fmt_u32(n).len() > 0,
        no_ws(fmt_u32(n)),
{
    lemma_dec(n as nat);
    assert(is_digit(fmt_u32(n)[0]));
}

/// The decimal text of an `i32` (with a `-` when negative) reads back as
/// that number, and holds no whitespace.
pub proof fn lemma_fmt_i32(n: i32)
    ensures
        parse_i32(fmt_i32(n)) == Some(n),
        fmt_i32(n).len() > 0,
        no_ws(fmt_i32(n)),
{
    if n < 0 {
        let m = (-n) as nat;
        lemma_dec(m);
        let s = fmt_i32(n);
        assert(s[0] == '-');
        assert(s.drop_first() =~= dec(m));
        assert forall|i: int| 0 <= i < s.len() implies !is_ws(#[trigger] s[i]) by {
            if i > 0 {
                assert(s[i] == dec(m)[i - 1]);
            }
        }
    } else {
        lemma_dec(n as nat);
        assert(is_digit(fmt_i32(n)[0]));
    }
}

proof fn lemma_edit_words(e: ((i32, i32, i32), bool))
    ensures
        words_of(edit_line(e)) == seq![
            kw_edit(),
            fmt_i32(e.0.0),
            fmt_i32(e.0.1),
            fmt_i32(e.0.2),
            if e.1 {
                seq!['1']
            } else {
                seq!['0']
            },
        ],
        no_nl(edit_line(e)),
{
    let s = if e.1 {
        seq!['1']
    } else {
        seq!['0']
    };
    lemma_fmt_i32(e.0.0);
    lemma_fmt_i32(e.0.1);
    lemma_fmt_i32(e.0.2);
    assert(no_ws(kw_edit()));
    assert(no_ws(s));
    lemma_words_single(kw_edit());
    let a = kw_edit();
    lemma_words_then(a, fmt_i32(e.0.0));
    let b = a + sp() + fmt_i32(e.0.0);
    lemma_words_then(b, fmt_i32(e.0.1));
    let c = b + sp() + fmt_i32(e.0.1);
    lemma_words_then(c, fmt_i32(e.0.2));
    let d = c + sp() + fmt_i32(e.0.2);
    lemma_words_then(d, s);
    assert(edit_line(e) == d + sp() + s);
    assert(words_of(edit_line(e)) =~= seq![kw_edit(), fmt_i32(e.0.0), fmt_i32(e.0.1), fmt_i32(e.0.2), s]);
    assert(no_nl(sp()));
    lemma_no_ws_no_nl(a);
    lemma_no_ws_no_nl(fmt_i32(e.0.0));
    lemma_no_ws_no_nl(fmt_i32(e.0.1));
    lemma_no_ws_no_nl(fmt_i32(e.0.2));
    lemma_no_ws_no_nl(s);
    lemma_no_nl_add(a, sp());
    lemma_no_nl_add(a + sp(), fmt_i32(e.0.0));
    lemma_no_nl_add(b, sp());
    lemma_no_nl_add(b + sp(), fmt_i32(e.0.1));
    lemma_no_nl_add(c, sp());
    lemma_no_nl_add(c + sp(), fmt_i32(e.0.2));
    lemma_no_nl_add(d, sp());
    lemma_no_nl_add(d + sp(), s);
}

proof fn lemma_seed_words(seed: u32)
    ensures
        words_of(seed_line(seed)) == seq![kw_seed(), fmt_u32(seed)],
        no_nl(seed_line(seed)),
{
    lemma_fmt_u32(seed);
    assert(no_ws(kw_seed()));
    lemma_words_single(kw_seed());
    lemma_words_then(kw_seed(), fmt_u32(seed));
    assert(words_of(seed_line(seed)) =~= seq![kw_seed(), fmt_u32(seed)]);
    assert(no_nl(sp()));
    lemma_no_ws_no_nl(kw_seed());
    lemma_no_ws_no_nl(fmt_u32(seed));
    lemma_no_nl_add(kw_seed(), sp());
    lemma_no_nl_add(kw_seed() + sp(), fmt_u32(seed));
}

/// The pose words can be written into a `player` line and read back.
pub open spec fn pose_words_ok(pose: Seq<Seq<char>>) -> bool {
    pose.len() == 5 && forall|i: int| 0 <= i < 5 ==> (#[trigger] pose[i]).len() > 0 && no_ws(pose[i])
}

proof fn lemma_player_words(pose: Seq<Seq<char>>)
    requires
        pose_words_ok(pose),
    ensures
        words_of(player_line(pose)) == seq![kw_player()] + pose,
        no_nl(player_line(pose)),
{
    let p0 = pose[0];
    let p1 = pose[1];
    let p2 = pose[2];
    let p3 = pose[3];
    let p4 = pose[4];
    assert(no_ws(kw_player()));
    lemma_words_single(kw_player());
    let a = kw_player();
    lemma_words_then(a, p0);
    let b = a + sp() + p0;
    lemma_words_then(b, p1);
    let c = b + sp() + p1;
    lemma_words_then(c, p2);
    let d = c + sp() + p2;
    lemma_words_then(d, p3);
    let e = d + sp() + p3;
    lemma_words_then(e, p4);
    assert(player_line(pose) == e + sp() + p4);
    assert(words_of(player_line(pose)) =~= seq![kw_player()] + pose);
    assert(no_nl(sp()));
    lemma_no_ws_no_nl(a);
    lemma_no_ws_no_nl(p0);
    lemma_no_ws_no_nl(p1);
    lemma_no_ws_no_nl(p2);
    lemma_no_ws_no_nl(p3);
    lemma_no_ws_no_nl(p4);
    lemma_no_nl_add(a, sp());
    lemma_no_nl_add(a + sp(), p0);
    lemma_no_nl_add(b, sp());
    lemma_no_nl_add(b + sp(), p1);
    lemma_no_nl_add(c, sp());
    lemma_no_nl_add(c + sp(), p2);
    lemma_no_nl_add(d, sp());
    lemma_no_nl_add(d + sp(), p3);
    lemma_no_nl_add(e, sp());
    lemma_no_nl_add(e + sp(), p4);
}

proof fn lemma_parse_prefix(
    seed: u32,
    pose: Seq<Seq<char>>,
    edits: Seq<((i32, i32, i32), bool)>,
    k: int,
)
    requires
        pose_words_ok(pose),
        0 <= k <= edits.len(),
    ensures
        parse_lines(save_lines(seed, pose, edits).take(k + 2)) == (SaveModel {
            seed,
            pose: Some(pose),
            edits: edits.take(k),
        }),
    decreases k,
{
    let ls = save_lines(seed, pose, edits);
    if k == 0 {
        lemma_seed_words(seed);
        lemma_player_words(pose);
        lemma_fmt_u32(seed);
        assert(ls.take(2).drop_last() =~= seq![seed_line(seed)]);
        assert(ls.take(2).last() == player_line(pose));
        assert(seq![seed_line(seed)].drop_last() =~= Seq::<Seq<char>>::empty());
        assert(kw_player() != kw_seed());
        let w = seq![kw_player()] + pose;
        assert(w.len() == 6 && w[0] == kw_player());
        assert(w.subrange(1, 6) =~= pose);
        assert(edits.take(0) =~= Seq::<((i32, i32, i32), bool)>::empty());
        let s1 = seq![seed_line(seed)];
        assert(s1.last() == seed_line(seed));
        assert(parse_lines(s1.drop_last()) == initial_model());
        let m1 = parse_lines(s1);
        assert(m1 == apply_line(initial_model(), words_of(seed_line(seed))));
        assert(m1 =~= (SaveModel { seed, pose: None, edits: Seq::empty() }));
        assert(parse_lines(ls.take(2)) == apply_line(m1, words_of(player_line(pose))));
        assert(parse_lines(ls.take(2)) =~= (SaveModel { seed, pose: Some(pose), edits: edits.take(0) }));
    } else {
        lemma_parse_prefix(seed, pose, edits, k - 1);
        let e = edits[k - 1];
        lemma_edit_words(e);
        lemma_fmt_i32(e.0.0);
        lemma_fmt_i32(e.0.1);
        lemma_fmt_i32(e.0.2);
        assert(ls.take(k + 2).drop_last() =~= ls.take(k + 1));
        assert(ls.take(k + 2).last() == edit_line(e));
        assert(kw_edit() != kw_seed());
        assert(kw_edit() != kw_player());
        let one = if e.1 {
            seq!['1']
        } else {
            seq!['0']
        };
        assert((one == kw_one()) == e.1);
        assert(edits.take(k - 1).push(e) =~= edits.take(k));
        assert(parse_lines(ls.take(k + 2)) =~= (SaveModel { seed, pose: Some(pose), edits: edits.take(k) }));
    }
}

/// Reading back a written save file gives the seed, the pose words and the
/// edits that were written (the pose words must be non-empty and free of
/// whitespace, as the text of a number is).
pub proof fn lemma_save_round_trip(seed: u32, pose: Seq<Seq<char>>, edits: Seq<((i32, i32, i32), bool)>)
    requires
        pose_words_ok(pose),
    ensures
        parse_save_spec(render_save_spec(seed, pose, edits)) == (SaveModel { seed, pose: Some(pose), edits }),
{
    let ls = save_lines(seed, pose, edits);
    assert forall|i: int| 0 <= i < ls.len() implies no_nl(#[trigger] ls[i]) by {
        if i == 0 {
            lemma_seed_words(seed);
        } else if i == 1 {
            lemma_player_words(pose);
        } else {
            lemma_edit_words(edits[i - 2]);
        }
    }
    lemma_lines_join(ls);
    lemma_parse_prefix(seed, pose, edits, edits.len() as int);
    assert(ls.take(edits.len() as int + 2) =~= ls);
    assert(edits.take(edits.len() as int) =~= edits);
    assert(ls.push(Seq::<char>::empty()).drop_last() =~= ls);
    assert(words_of(Seq::<char>::empty()) =~= Seq::<Seq<char>>::empty());
}

/// Saving a world and loading the file back into a fresh edit set restores
/// the seed, the pose words and exactly the edits that were saved (`s` is a
/// snapshot of the edit map `m`, as [`crate::edits::ChunkEdits::entries`]
/// gives).
pub proof fn lemma_world_round_trip(
    seed: u32,
    pose: Seq<Seq<char>>,
    s: Seq<((i32, i32, i32), bool)>,
    m: Map<(i32, i32, i32), bool>,
)
    requires
        pose_words_ok(pose),
        is_snapshot(s, m),
    ensures
        parse_save_spec(render_save_spec(seed, pose, s)).seed == seed,
        parse_save_spec(render_save_spec(seed, pose, s)).pose == Some(pose),
        map_after(Map::empty(), parse_save_spec(render_save_spec(seed, pose, s)).edits) == m,
{
    lemma_save_round_trip(seed, pose, s);
    lemma_snapshot_restores(s, m);
}

} // verus!
