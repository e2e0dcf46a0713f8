use vstd::prelude::*;
use vstd::string::StringSliceAdditionalSpecFns;
use crate::errors::AsmError;
use crate::simulator::MEM_SIZE;

verus! {

/// One assembly instruction of the target machine.
#[derive(Debug, Clone, Copy, PartialEq, Eq, Structural)]
pub enum Instruction {
    Nop,
    Add { dest: u8, src: u8 },
    AddI { dest: u8, imm: u8 },
    Nand { dest: u8, src: u8 },
    LoadI { dest: u8, imm: u8 },
    Store { addr: u8, src: u8 },
    Load { dest: u8, src: u8 },
    Jz { reg: u8, addr: u8 },
    LoadW { dest: u8, imm: u16 },
    Gt { dest: u8, src1: u8, src2: u8 },
    Flag,
    Invalid,
}

/// An ASCII whitespace byte: space, tab, or one of the control whitespaces.
pub open spec fn ascii_space(b: u8) -> bool {
    b == 32 || (9 <= b <= 13)
}

/// The index of the first `b` in `s`, or -1.
pub open spec fn find_byte(s: Seq<u8>, b: u8) -> int
    decreases s.len(),
{
    if s.len() == 0 {
        -1
    } else if s[0] == b {
        0
    } else {
        let r = find_byte(s.drop_first(), b);
        if r < 0 {
            -1
        } else {
            r + 1
        }
    }
}

/// The text split at every newline byte; the separators are dropped.
pub open spec fn split_lines(s: Seq<u8>) -> Seq<Seq<u8>>
    decreases s.len(),
{
    let i = find_byte(s, 10);
    if 0 <= i < s.len() {
        seq![s.take(i)] + split_lines(s.skip(i + 1))
    } else {
        seq![s]
    }
}

/// A byte search lands inside the text or reports -1.
pub proof fn lemma_find_byte_bounds(s: Seq<u8>, b: u8)
    ensures
        find_byte(s, b) == -1 || (0 <= find_byte(s, b) < s.len() && s[find_byte(s, b)] == b),
    decreases s.len(),
{
    if s.len() > 0 && s[0] != b {
        lemma_find_byte_bounds(s.drop_first(), b);
    }
}

/// A whitespace search lands inside the text or reports -1, and never on
/// the first byte of a word.
pub proof fn lemma_first_space_bounds(s: Seq<u8>)
    ensures
        first_space(s) == -1 || (0 <= first_space(s) < s.len() && ascii_space(
            s[first_space(s)],
        )),
        s.len() > 0 && !ascii_space(s[0]) ==> first_space(s) != 0,
    decreases s.len(),
{
    if s.len() > 0 && !ascii_space(s[0]) {
        lemma_first_space_bounds(s.drop_first());
    }
}

/// The line up to its first semicolon: comments are dropped.
pub open spec fn strip_comment(l: Seq<u8>) -> Seq<u8> {
    let i = find_byte(l, 59);
    if i < 0 {
        l
    } else {
        l.take(i)
    }
}

/// The line with leading and trailing whitespace dropped.
pub open spec fn trim(l: Seq<u8>) -> Seq<u8>
    decreases l.len(),
{
    if l.len() > 0 && ascii_space(l[0]) {
        trim(l.drop_first())
    } else if l.len() > 0 && ascii_space(l.last()) {
        trim(l.drop_last())
    } else {
        l
    }
}

/// The maximal whitespace-free words of the line, in order.
pub open spec fn tokens(l: Seq<u8>) -> Seq<Seq<u8>>
    decreases l.len(),
{
    if l.len() == 0 {
        Seq::empty()
    } else if ascii_space(l[0]) {
        tokens(l.drop_first())
    } else {
        let i = first_space(l);
        if 0 < i < l.len() {
            seq![l.take(i)] + tokens(l.skip(i))
        } else {
            seq![l]
        }
    }
}

/// The index of the first whitespace byte, or -1.
pub open spec fn first_space(s: Seq<u8>) -> int
    decreases s.len(),
{
    if s.len() == 0 {
        -1
    } else if ascii_space(s[0]) {
        0
    } else {
        let r = first_space(s.drop_first());
        if r < 0 {
            -1
        } else {
            r + 1
        }
    }
}

/// Whether a byte is ASCII whitespace.
fn is_space_byte(c: u8) -> (r: bool)
    ensures
        r == ascii_space(c),
{
    c == 32 || (9 <= c && c <= 13)
}

/// Find the first `b` in `v` at or after `from`.
fn find_from(v: &Vec<u8>, b: u8, from: usize) -> (r: Option<usize>)
    requires
        from <= v@.len(),
    ensures
        match r {
            Some(i) => from <= i < v@.len() && find_byte(v@.skip(from as int), b) == i - from,
            None => find_byte(v@.skip(from as int), b) == -1,
        },
{
    let mut j: usize = from;
    while j < v.len()
        invariant
            from <= j <= v@.len(),
            find_byte(v@.skip(from as int), b) == ({
                let r = find_byte(v@.skip(j as int), b);
                if r < 0 {
                    -1int
                } else {
                    r + (j - from)
                }
            }),
        decreases v@.len() - j,
    {
        proof {
            assert(v@.skip(j as int).drop_first() =~= v@.skip(j as int + 1));
            assert(v@.skip(j as int)[0] == v@[j as int]);
        }
        if v[j] == b {
            return Some(j);
        }
        j = j + 1;
    }
    proof {
        assert(v@.skip(v@.len() as int) =~= Seq::<u8>::empty());
    }
    None
}

/// Copy the bytes of `v` from `from` up to `to`.
fn copy_range(v: &Vec<u8>, from: usize, to: usize) -> (r: Vec<u8>)
    requires
        from <= to <= v@.len(),
    ensures
        r@ == v@.subrange(from as int, to as int),
{
    let mut r: Vec<u8> = Vec::new();
    let mut j: usize = from;
    while j < to
        invariant
            from <= j <= to <= v@.len(),
            r@ == v@.subrange(from as int, j as int),
        decreases to - j,
    {
        proof {
            assert(v@.subrange(from as int, j as int + 1).drop_last() =~= v@.subrange(
                from as int,
                j as int,
            ));
            assert(v@.subrange(from as int, j as int + 1).last() == v@[j as int]);
        }
        r.push(v[j]);
        j = j + 1;
    }
    r
}

/// Split the program text at every newline byte.
fn split_lines_exec(v: &Vec<u8>) -> (r: Vec<Vec<u8>>)
    ensures
        r.deep_view() == split_lines(v@),
{
    let mut out: Vec<Vec<u8>> = Vec::new();
    proof {
        assert(v@.skip(0) =~= v@);
        assert(out.deep_view() =~~= Seq::<Seq<u8>>::empty());
    }
    let n = v.len();
    let mut pos: usize = 0;
    let mut more: bool = true;
    while more
        invariant
            n == v@.len(),
            pos <= v@.len(),
            more ==> split_lines(v@) == out.deep_view() + split_lines(v@.skip(pos as int)),
            !more ==> out.deep_view() == split_lines(v@),
        decreases v@.len() - pos + (if more {
            1int
        } else {
            0int
        }),
    {
        let ghost pre = out.deep_view();
        match find_from(v, 10, pos) {
            Some(i) => {
                let piece = copy_range(v, pos, i);
                proof {
                    assert(v@.skip(pos as int).take(i - pos) =~= v@.subrange(pos as int, i as int));
                    assert(v@.skip(pos as int).skip(i - pos + 1) =~= v@.skip(i as int + 1));
                }
                out.push(piece);
                proof {
                    assert(out.deep_view() =~~= pre + seq![v@.subrange(pos as int, i as int)]);
                    assert(split_lines(v@) =~~= out.deep_view() + split_lines(
                        v@.skip(i as int + 1),
                    ));
                    assert(i < n);
                }
                pos = i + 1;
            },
            None => {
                let piece = copy_range(v, pos, v.len());
                proof {
                    assert(v@.skip(pos as int).take(v@.len() - pos) =~= v@.subrange(
                        pos as int,
                        v@.len() as int,
                    ));
                    assert(split_lines(v@.skip(pos as int)) == seq![v@.skip(pos as int)]);
                    assert(v@.skip(pos as int) =~= v@.subrange(pos as int, v@.len() as int));
                }
                out.push(piece);
                proof {
                    assert(out.deep_view() =~~= pre + seq![
                        v@.subrange(pos as int, v@.len() as int),
                    ]);
                    assert(out.deep_view() =~~= split_lines(v@));
                }
                more = false;
            },
        }
    }
    out
}

/// Copy `v` between `lo` and `hi` with surrounding whitespace dropped.
fn trim_range(l: &Vec<u8>, lo: usize, hi: usize) -> (r: Vec<u8>)
    requires
        lo <= hi <= l@.len(),
    ensures
        r@ == trim(l@.subrange(lo as int, hi as int)),
{
    let mut from: usize = lo;
    let mut to: usize = hi;
    while from < to && is_space_byte(l[from])
        invariant
            lo <= from <= to <= l@.len(),
            trim(l@.subrange(lo as int, hi as int)) == trim(
                l@.subrange(from as int, to as int),
            ),
        decreases to - from,
    {
        proof {
            assert(l@.subrange(from as int, to as int).drop_first() =~= l@.subrange(
                from as int + 1,
                to as int,
            ));
        }
        from = from + 1;
    }
    while from < to && is_space_byte(l[to - 1])
        invariant
            lo <= from <= to <= l@.len(),
            trim(l@.subrange(lo as int, hi as int)) == trim(
                l@.subrange(from as int, to as int),
            ),
            from < to ==> !ascii_space(l@[from as int]),
        decreases to - from,
    {
        proof {
            assert(l@.subrange(from as int, to as int).drop_last() =~= l@.subrange(
                from as int,
                to as int - 1,
            ));
        }
        to = to - 1;
    }
    proof {
        assert(trim(l@.subrange(from as int, to as int)) == l@.subrange(from as int, to as int));
    }
    copy_range(l, from, to)
}

/// Drop the comment and the surrounding whitespace of one line.
fn clean_line(l: &Vec<u8>) -> (r: Vec<u8>)
    ensures
        r@ == trim(strip_comment(l@)),
{
    let cut = match find_from(l, 59, 0) {
        Some(i) => i,
        None => l.len(),
    };
    proof {
        assert(l@.skip(0) =~= l@);
        if find_byte(l@, 59) < 0 {
            assert(l@.take(l@.len() as int) =~= l@);
        }
        assert(strip_comment(l@) =~= l@.subrange(0, cut as int));
    }
    trim_range(l, 0, cut)
}

/// Cut one cleaned line into whitespace-separated tokens.
fn tokenize(l: &Vec<u8>) -> (r: Vec<Vec<u8>>)
    ensures
        r.deep_view() == tokens(l@),
{
    let mut out: Vec<Vec<u8>> = Vec::new();
    proof {
        assert(l@.skip(0) =~= l@);
        assert(out.deep_view() =~~= Seq::<Seq<u8>>::empty());
    }
    let mut pos: usize = 0;
    while pos < l.len()
        invariant
            pos <= l@.len(),
            tokens(l@) == out.deep_view() + tokens(l@.skip(pos as int)),
        decreases l@.len() - pos,
    {
        let c = l[pos];
        proof {
            assert(l@.skip(pos as int).drop_first() =~= l@.skip(pos as int + 1));
            assert(l@.skip(pos as int)[0] == l@[pos as int]);
        }
        if c == 32 || (9 <= c && c <= 13) {
            pos = pos + 1;
        } else {
            let mut end: usize = pos;
            while end < l.len() && !is_space_byte(l[end])
                invariant
                    pos <= end <= l@.len(),
                    forall|k: int| pos <= k < end ==> !ascii_space(#[trigger] l@[k]),
                decreases l@.len() - end,
            {
                end = end + 1;
            }
            proof {
                lemma_first_space_at(l@, pos as int, end as int);
            }
            let piece = copy_range(l, pos, end);
            let ghost pre = out.deep_view();
            out.push(piece);
            proof {
                assert(out.deep_view() =~~= pre + seq![l@.subrange(pos as int, end as int)]);
                assert(l@.skip(pos as int).take(end - pos) =~= l@.subrange(
                    pos as int,
                    end as int,
                ));
                assert(l@.skip(pos as int).skip(end - pos) =~= l@.skip(end as int));
                if end < l@.len() {
                    assert(tokens(l@) =~~= out.deep_view() + tokens(l@.skip(end as int)));
                } else {
                    assert(l@.skip(pos as int) =~= l@.subrange(pos as int, end as int));
                    assert(l@.skip(end as int) =~= Seq::<u8>::empty());
                    assert(tokens(l@) =~~= out.deep_view() + tokens(l@.skip(end as int)));
                }
            }
            pos = end;
        }
    }
    proof {
        assert(l@.skip(l@.len() as int) =~= Seq::<u8>::empty());
        assert(out.deep_view() =~~= tokens(l@));
    }
    out
}

/// The ASCII byte uppercased.
pub open spec fn upper(b: u8) -> u8 {
    if 97 <= b <= 122 {
        (b - 32) as u8
    } else {
        b
    }
}

/// The token with every ASCII letter uppercased.
pub open spec fn upper_seq(s: Seq<u8>) -> Seq<u8> {
    s.map_values(|b: u8| upper(b))
}

/// The value of a decimal digit byte, or -1.
pub open spec fn dec_digit(b: u8) -> int {
    if 48 <= b <= 57 {
        b - 48
    } else {
        -1
    }
}

/// The value of a hexadecimal digit byte, either case, or -1.
pub open spec fn hex_digit(b: u8) -> int {
    if 48 <= b <= 57 {
        b - 48
    } else if 97 <= b <= 102 {
        b - 87
    } else if 65 <= b <= 70 {
        b - 55
    } else {
        -1
    }
}

/// A non-empty run of decimal digits.
pub open spec fn all_dec(s: Seq<u8>) -> bool {
    s.len() >= 1 && forall|i: int| 0 <= i < s.len() ==> dec_digit(#[trigger] s[i]) >= 0
}

/// A non-empty run of hexadecimal digits.
pub open spec fn all_hex(s: Seq<u8>) -> bool {
    s.len() >= 1 && forall|i: int| 0 <= i < s.len() ==> hex_digit(#[trigger] s[i]) >= 0
}

/// The number the decimal digits spell, most significant first.
pub open spec fn dec_value(s: Seq<u8>) -> nat
    decreases s.len(),
{
    if s.len() == 0 {
        0
    } else {
        10 * dec_value(s.drop_last()) + (if dec_digit(s.last()) >= 0 {
            dec_digit(s.last())
        } else {
            0
        }) as nat
    }
}

/// The number the hexadecimal digits spell, most significant first.
pub open spec fn hex_value(s: Seq<u8>) -> nat
    decreases s.len(),
{
    if s.len() == 0 {
        0
    } else {
        16 * hex_value(s.drop_last()) + (if hex_digit(s.last()) >= 0 {
            hex_digit(s.last())
        } else {
            0
        }) as nat
    }
}

/// The token with one leading plus sign dropped, as the standard number
/// parsers accept.
pub open spec fn strip_plus(s: Seq<u8>) -> Seq<u8> {
    if s.len() >= 1 && s[0] == 43 {
        s.drop_first()
    } else {
        s
    }
}

/// What parsing the token as a bounded decimal number returns.
pub open spec fn parse_dec(s: Seq<u8>, max: nat) -> Option<nat> {
    let t = strip_plus(s);
    if all_dec(t) && dec_value(t) <= max {
        Some(dec_value(t))
    } else {
        None
    }
}

/// What parsing the token as a bounded hexadecimal number returns.
pub open spec fn parse_hex(s: Seq<u8>, max: nat) -> Option<nat> {
    let t = strip_plus(s);
    if all_hex(t) && hex_value(t) <= max {
        Some(hex_value(t))
    } else {
        None
    }
}

/// The token with every leading `0x` marker dropped, as repeated prefix
/// trimming leaves it.
pub open spec fn strip0x(s: Seq<u8>) -> Seq<u8>
    decreases s.len(),
{
    if s.len() >= 2 && s[0] == 48 && s[1] == 120 {
        strip0x(s.skip(2))
    } else {
        s
    }
}

/// A decimal prefix too large for the bound spells a too-large number.
proof fn lemma_dec_overflow(s: Seq<u8>, j: int, max: nat)
    requires
        0 <= j <= s.len(),
        dec_value(s.take(j)) > max,
    ensures
        dec_value(s) > max,
    decreases s.len() - j,
{
    if j < s.len() {
        assert(s.take(j + 1).drop_last() =~= s.take(j));
        assert(dec_value(s.take(j + 1)) >= 10 * dec_value(s.take(j)));
        lemma_dec_overflow(s, j + 1, max);
    } else {
        assert(s.take(j) =~= s);
    }
}

/// A hexadecimal prefix too large for the bound spells a too-large number.
proof fn lemma_hex_overflow(s: Seq<u8>, j: int, max: nat)
    requires
        0 <= j <= s.len(),
        hex_value(s.take(j)) > max,
    ensures
        hex_value(s) > max,
    decreases s.len() - j,
{
    if j < s.len() {
        assert(s.take(j + 1).drop_last() =~= s.take(j));
        assert(hex_value(s.take(j + 1)) >= 16 * hex_value(s.take(j)));
        lemma_hex_overflow(s, j + 1, max);
    } else {
        assert(s.take(j) =~= s);
    }
}

/// Parse a bounded decimal number, mirroring the standard parser: one
/// optional plus sign, then digits.
fn parse_dec_exec(t: &Vec<u8>, max: u64) -> (r: Option<u64>)
    requires
        max <= 65535,
    ensures
        match r {
            Some(v) => parse_dec(t@, max as nat) == Some(v as nat) && v <= max,
            None => parse_dec(t@, max as nat) is None,
        },
{
    let start: usize = if t.len() >= 1 && t[0] == 43 {
        1
    } else {
        0
    };
    proof {
        if start == 1 {
            assert(strip_plus(t@) =~= t@.skip(1));
        } else {
            assert(strip_plus(t@) =~= t@.skip(0));
        }
    }
    if t.len() == start {
        return None;
    }
    let mut acc: u64 = 0;
    let mut i: usize = start;
    while i < t.len()
        invariant
            start <= i <= t@.len(),
            start <= 1,
            max <= 65535,
            acc <= max,
            strip_plus(t@) == t@.skip(start as int),
            forall|k: int| start <= k < i ==> dec_digit(#[trigger] t@[k]) >= 0,
            acc == dec_value(t@.subrange(start as int, i as int)),
        decreases t@.len() - i,
    {
        let b = t[i];
        proof {
            assert(t@.skip(start as int)[i - start] == t@[i as int]);
        }
        if !(48 <= b && b <= 57) {
            return None;
        }
        let d = (b - 48) as u64;
        proof {
            assert(t@.subrange(start as int, i as int + 1).drop_last() =~= t@.subrange(
                start as int,
                i as int,
            ));
            assert(t@.subrange(start as int, i as int + 1).last() == t@[i as int]);
        }
        let next = acc * 10 + d;
        if next > max {
            proof {
                assert(t@.skip(start as int).take(i + 1 - start) =~= t@.subrange(
                    start as int,
                    i as int + 1,
                ));
                lemma_dec_overflow(t@.skip(start as int), i + 1 - start, max as nat);
            }
            return None;
        }
        acc = next;
        i = i + 1;
    }
    proof {
        assert(t@.subrange(start as int, t@.len() as int) =~= t@.skip(start as int));
        assert(forall|k: int|
            0 <= k < t@.skip(start as int).len() ==> dec_digit(
                #[trigger] t@.skip(start as int)[k],
            ) >= 0);
    }
    Some(acc)
}

/// Parse a bounded hexadecimal number, mirroring the standard radix parser.
fn parse_hex_exec(t: &Vec<u8>, max: u64) -> (r: Option<u64>)
    requires
        max <= 65535,
    ensures
        match r {
            Some(v) => parse_hex(t@, max as nat) == Some(v as nat) && v <= max,
            None => parse_hex(t@, max as nat) is None,
        },
{
    let start: usize = if t.len() >= 1 && t[0] == 43 {
        1
    } else {
        0
    };
    proof {
        if start == 1 {
            assert(strip_plus(t@) =~= t@.skip(1));
        } else {
            assert(strip_plus(t@) =~= t@.skip(0));
        }
    }
    if t.len() == start {
        return None;
    }
    let mut acc: u64 = 0;
    let mut i: usize = start;
    while i < t.len()
        invariant
            start <= i <= t@.len(),
            start <= 1,
            max <= 65535,
            acc <= max,
            strip_plus(t@) == t@.skip(start as int),
            forall|k: int| start <= k < i ==> hex_digit(#[trigger] t@[k]) >= 0,
            acc == hex_value(t@.subrange(start as int, i as int)),
        decreases t@.len() - i,
    {
        let b = t[i];
        proof {
            assert(t@.skip(start as int)[i - start] == t@[i as int]);
        }
        let d: u64 = if 48 <= b && b <= 57 {
            (b - 48) as u64
        } else if 97 <= b && b <= 102 {
            (b - 87) as u64
        } else if 65 <= b && b <= 70 {
            (b - 55) as u64
        } else {
            return None;
        };
        proof {
            assert(t@.subrange(start as int, i as int + 1).drop_last() =~= t@.subrange(
                start as int,
                i as int,
            ));
            assert(t@.subrange(start as int, i as int + 1).last() == t@[i as int]);
        }
        let next = acc * 16 + d;
        if next > max {
            proof {
                assert(t@.skip(start as int).take(i + 1 - start) =~= t@.subrange(
                    start as int,
                    i as int + 1,
                ));
                lemma_hex_overflow(t@.skip(start as int), i + 1 - start, max as nat);
            }
            return None;
        }
        acc = next;
        i = i + 1;
    }
    proof {
        assert(t@.subrange(start as int, t@.len() as int) =~= t@.skip(start as int));
        assert(forall|k: int|
            0 <= k < t@.skip(start as int).len() ==> hex_digit(
                #[trigger] t@.skip(start as int)[k],
            ) >= 0);
    }
    Some(acc)
}

/// Drop every leading `0x` marker from the token.
fn strip0x_exec(t: &Vec<u8>) -> (r: Vec<u8>)
    ensures
        r@ == strip0x(t@),
{
    let mut pos: usize = 0;
    proof {
        assert(t@.skip(0) =~= t@);
    }
    while t.len() >= 2 && pos <= t.len() - 2 && t[pos] == 48 && t[pos + 1] == 120
        invariant
            pos <= t@.len(),
            strip0x(t@) == strip0x(t@.skip(pos as int)),
        decreases t@.len() - pos,
    {
        proof {
            assert(t@.skip(pos as int)[0] == t@[pos as int]);
            assert(t@.skip(pos as int)[1] == t@[pos as int + 1]);
            assert(t@.skip(pos as int).skip(2) =~= t@.skip(pos as int + 2));
        }
        pos = pos + 2;
    }
    proof {
        if pos < t@.len() {
            assert(t@.skip(pos as int)[0] == t@[pos as int]);
        }
        if pos + 1 < t@.len() {
            assert(t@.skip(pos as int)[1] == t@[pos as int + 1]);
        }
        assert(strip0x(t@.skip(pos as int)) == t@.skip(pos as int));
        assert(t@.skip(pos as int) =~= t@.subrange(pos as int, t@.len() as int));
    }
    copy_range(t, pos, t.len())
}

/// The bytes of an ASCII keyword literal.
pub open spec fn kwb(s: &str) -> Seq<u8> {
    s.spec_bytes()
}

/// The mathematical image of a label table: each name with the byte address
/// its definition carries.
pub open spec fn lbl_view(s: Seq<(Vec<u8>, usize)>) -> Seq<(Seq<u8>, usize)> {
    s.map_values(|p: (Vec<u8>, usize)| (p.0@, p.1))
}

/// The address of the last definition of `name`, as a map built by
/// overwriting insertions reads.
pub open spec fn label_lookup(labels: Seq<(Seq<u8>, usize)>, name: Seq<u8>) -> Option<usize>
    decreases labels.len(),
{
    if labels.len() == 0 {
        None
    } else if labels.last().0 == name {
        Some(labels.last().1)
    } else {
        label_lookup(labels.drop_last(), name)
    }
}

/// The token names a hexadecimal number.
pub open spec fn starts_0x(s: Seq<u8>) -> bool {
    s.len() >= 2 && s[0] == 48 && s[1] == 120
}

/// What parsing a register operand returns: `r` or `R`, then a register
/// number below 8.
pub open spec fn reg_of(tok: Seq<u8>) -> Result<u8, AsmError> {
    let t = upper_seq(tok);
    if t.len() < 1 || t[0] != 82 {
        Err(AsmError::BadRegister)
    } else {
        match parse_dec(t.skip(1), 255) {
            Some(n) => if n < 8 {
                Ok(n as u8)
            } else {
                Err(AsmError::BadRegister)
            },
            None => Err(AsmError::BadRegister),
        }
    }
}

/// What parsing an 8-bit immediate returns: a known label's address, or a
/// hexadecimal or decimal number.
pub open spec fn imm_of(tok: Seq<u8>, labels: Seq<(Seq<u8>, usize)>) -> Result<u8, AsmError> {
    match label_lookup(labels, tok) {
        Some(a) => if a <= 255 {
            Ok(a as u8)
        } else {
            Err(AsmError::BadImmediate)
        },
        None => if starts_0x(tok) {
            match parse_hex(strip0x(tok), 255) {
                Some(v) => Ok(v as u8),
                None => Err(AsmError::BadImmediate),
            }
        } else {
            match parse_dec(tok, 255) {
                Some(v) => Ok(v as u8),
                None => Err(AsmError::BadImmediate),
            }
        },
    }
}

/// What parsing a 16-bit immediate returns.
pub open spec fn wide_imm_of(tok: Seq<u8>) -> Result<u16, AsmError> {
    if starts_0x(tok) {
        match parse_hex(strip0x(tok), 65535) {
            Some(v) => Ok(v as u16),
            None => Err(AsmError::BadImmediate),
        }
    } else {
        match parse_dec(tok, 65535) {
            Some(v) => Ok(v as u16),
            None => Err(AsmError::BadImmediate),
        }
    }
}

/// What parsing a data-section address returns; it must fit the memory.
pub open spec fn data_addr_of(tok: Seq<u8>) -> Result<usize, AsmError> {
    match parse_hex(strip0x(tok), 65535) {
        Some(v) => Ok(v as usize),
        None => Err(AsmError::BadDataAddress),
    }
}

/// What parsing a data word returns.
pub open spec fn data_value_of(tok: Seq<u8>) -> Result<u16, AsmError> {
    match parse_hex(strip0x(tok), 65535) {
        Some(v) => Ok(v as u16),
        None => Err(AsmError::BadDataValue),
    }
}

/// What parsing one tokenized instruction line returns.
pub open spec fn inst_of(toks: Seq<Seq<u8>>, labels: Seq<(Seq<u8>, usize)>) -> Result<
    Instruction,
    AsmError,
>
    recommends
        toks.len() >= 1,
{
    let m = upper_seq(toks[0]);
    if m == kwb("NOP") {
        if toks.len() == 1 {
            Ok(Instruction::Nop)
        } else {
            Err(AsmError::WrongArity)
        }
    } else if m == kwb("ADD") || m == kwb("LOAD") || m == kwb("NAND") {
        if toks.len() != 3 {
            Err(AsmError::WrongArity)
        } else {
            match reg_of(toks[1]) {
                Err(e) => Err(e),
                Ok(d) => match reg_of(toks[2]) {
                    Err(e) => Err(e),
                    Ok(s) => if m == kwb("ADD") {
                        Ok(Instruction::Add { dest: d, src: s })
                    } else if m == kwb("LOAD") {
                        Ok(Instruction::Load { dest: d, src: s })
                    } else {
                        Ok(Instruction::Nand { dest: d, src: s })
                    },
                },
            }
        }
    } else if m == kwb("ADDI") {
        if toks.len() != 3 {
            Err(AsmError::WrongArity)
        } else {
            match reg_of(toks[1]) {
                Err(e) => Err(e),
                Ok(d) => match imm_of(toks[2], labels) {
                    Err(e) => Err(e),
                    Ok(v) => Ok(Instruction::AddI { dest: d, imm: v }),
                },
            }
        }
    } else if m == kwb("LOADI") {
        if toks.len() != 3 {
            Err(AsmError::WrongArity)
        } else {
            match reg_of(toks[1]) {
                Err(e) => Err(e),
                Ok(d) => match imm_of(toks[2], labels) {
                    Err(e) => Err(e),
                    Ok(v) => Ok(Instruction::LoadI { dest: d, imm: v }),
                },
            }
        }
    } else if m == kwb("LOADW") {
        if toks.len() != 3 {
            Err(AsmError::WrongArity)
        } else {
            match reg_of(toks[1]) {
                Err(e) => Err(e),
                Ok(d) => match wide_imm_of(toks[2]) {
                    Err(e) => Err(e),
                    Ok(v) => Ok(Instruction::LoadW { dest: d, imm: v }),
                },
            }
        }
    } else if m == kwb("STORE") {
        if toks.len() != 3 {
            Err(AsmError::WrongArity)
        } else {
            match reg_of(toks[1]) {
                Err(e) => Err(e),
                Ok(a) => match reg_of(toks[2]) {
                    Err(e) => Err(e),
                    Ok(s) => Ok(Instruction::Store { addr: a, src: s }),
                },
            }
        }
    } else if m == kwb("JZ") {
        if toks.len() != 3 {
            Err(AsmError::WrongArity)
        } else {
            match reg_of(toks[1]) {
                Err(e) => Err(e),
                Ok(rg) => match imm_of(toks[2], labels) {
                    Err(e) => Err(e),
                    Ok(v) => Ok(Instruction::Jz { reg: rg, addr: v }),
                },
            }
        }
    } else if m == kwb("GT") {
        if toks.len() != 4 {
            Err(AsmError::WrongArity)
        } else {
            match reg_of(toks[1]) {
                Err(e) => Err(e),
                Ok(d) => match reg_of(toks[2]) {
                    Err(e) => Err(e),
                    Ok(s1) => match reg_of(toks[3]) {
                        Err(e) => Err(e),
                        Ok(s2) => Ok(Instruction::Gt { dest: d, src1: s1, src2: s2 }),
                    },
                },
            }
        }
    } else if m == kwb("FLAG") {
        if toks.len() == 1 {
            Ok(Instruction::Flag)
        } else {
            Err(AsmError::WrongArity)
        }
    } else if m == kwb("HLT") {
        if toks.len() == 1 {
            Ok(Instruction::Invalid)
        } else {
            Err(AsmError::WrongArity)
        }
    } else {
        Err(AsmError::UnknownInstruction)
    }
}

/// The 16-bit word an instruction encodes to: the opcode in the low nibble,
/// the destination register at bit 4, the source register or immediate at
/// bit 8, and for the three-register comparison a second source at bit 12.
pub open spec fn spec_encode(i: Instruction) -> u16 {
    (match i {
        Instruction::Nop => 0int,
        Instruction::Add { dest, src } => (src * 256 + dest * 16 + 1) % 0x10000,
        Instruction::AddI { dest, imm } => (imm * 256 + dest * 16 + 4) % 0x10000,
        Instruction::Nand { dest, src } => (src * 256 + dest * 16 + 6) % 0x10000,
        Instruction::LoadI { dest, imm } => (imm * 256 + dest * 16 + 8) % 0x10000,
        Instruction::Store { addr, src } => (src * 256 + addr * 16 + 9) % 0x10000,
        Instruction::Load { dest, src } => (src * 256 + dest * 16 + 11) % 0x10000,
        Instruction::Jz { reg, addr } => (addr * 256 + reg * 16 + 12) % 0x10000,
        Instruction::LoadW { dest, imm: _ } => (dest * 16 + 13) % 0x10000,
        Instruction::Gt { dest, src1, src2 } => (src2 * 4096 + src1 * 256 + dest * 16 + 7)
            % 0x10000,
        Instruction::Flag => 14int,
        Instruction::Invalid => 15int,
    }) as u16
}

/// Uppercase one byte.
fn upper_byte(b: u8) -> (r: u8)
    ensures
        r == upper(b),
{
    if 97 <= b && b <= 122 {
        b - 32
    } else {
        b
    }
}

/// The token with every letter uppercased.
fn to_upper_vec(t: &Vec<u8>) -> (r: Vec<u8>)
    ensures
        r@ == upper_seq(t@),
{
    let mut r: Vec<u8> = Vec::new();
    let mut j: usize = 0;
    while j < t.len()
        invariant
            j <= t@.len(),
            r@.len() == j,
            forall|k: int| 0 <= k < j ==> r@[k] == upper(#[trigger] t@[k]),
        decreases t@.len() - j,
    {
        r.push(upper_byte(t[j]));
        j = j + 1;
    }
    proof {
        assert(r@ =~= upper_seq(t@));
    }
    r
}

/// Whether the uppercased token equals an uppercase keyword.
fn eq_upper_kw(t: &Vec<u8>, kw: &str) -> (r: bool)
    ensures
        r == (upper_seq(t@) == kwb(kw)),
{
    let kb = kw.as_bytes();
    if t.len() != kb.len() {
        proof {
            assert(upper_seq(t@).len() == t@.len());
        }
        return false;
    }
    let mut j: usize = 0;
    while j < t.len()
        invariant
            j <= t@.len(),
            t@.len() == kw.spec_bytes().len(),
            kb@ == kw.spec_bytes(),
            forall|k: int| 0 <= k < j ==> upper(#[trigger] t@[k]) == kw.spec_bytes()[k],
        decreases t@.len() - j,
    {
        if upper_byte(t[j]) != kb[j] {
            proof {
                assert(upper_seq(t@)[j as int] == upper(t@[j as int]));
            }
            return false;
        }
        j = j + 1;
    }
    proof {
        assert(upper_seq(t@) =~= kwb(kw));
    }
    true
}

/// Whether the token equals a keyword byte for byte.
fn eq_kw(t: &Vec<u8>, kw: &str) -> (r: bool)
    ensures
        r == (t@ == kwb(kw)),
{
    let kb = kw.as_bytes();
    if t.len() != kb.len() {
        return false;
    }
    let mut j: usize = 0;
    while j < t.len()
        invariant
            j <= t@.len(),
            t@.len() == kw.spec_bytes().len(),
            kb@ == kw.spec_bytes(),
            forall|k: int| 0 <= k < j ==> #[trigger] t@[k] == kw.spec_bytes()[k],
        decreases t@.len() - j,
    {
        if t[j] != kb[j] {
            return false;
        }
        j = j + 1;
    }
    proof {
        assert(t@ =~= kwb(kw));
    }
    true
}

/// Whether the line starts with a keyword.
fn starts_kw(t: &Vec<u8>, kw: &str) -> (r: bool)
    ensures
        r == (t@.len() >= kwb(kw).len() && t@.take(kwb(kw).len() as int) == kwb(kw)),
{
    let kb = kw.as_bytes();
    if t.len() < kb.len() {
        return false;
    }
    let mut j: usize = 0;
    while j < kb.len()
        invariant
            j <= kw.spec_bytes().len() <= t@.len(),
            kb@ == kw.spec_bytes(),
            forall|k: int| 0 <= k < j ==> #[trigger] t@[k] == kw.spec_bytes()[k],
        decreases kb@.len() - j,
    {
        if t[j] != kb[j] {
            proof {
                assert(t@.take(kwb(kw).len() as int)[j as int] == t@[j as int]);
            }
            return false;
        }
        j = j + 1;
    }
    proof {
        assert(t@.take(kwb(kw).len() as int) =~= kwb(kw));
    }
    true
}

/// Whether two byte vectors hold the same bytes.
fn eq_bytes(a: &Vec<u8>, b: &Vec<u8>) -> (r: bool)
    ensures
        r == (a@ == b@),
{
    if a.len() != b.len() {
        return false;
    }
    let mut j: usize = 0;
    while j < a.len()
        invariant
            j <= a@.len(),
            a@.len() == b@.len(),
            forall|k: int| 0 <= k < j ==> #[trigger] a@[k] == b@[k],
        decreases a@.len() - j,
    {
        if a[j] != b[j] {
            return false;
        }
        j = j + 1;
    }
    proof {
        assert(a@ =~= b@);
    }
    true
}

/// Parse one register operand.
fn parse_register(tok: &Vec<u8>) -> (r: Result<u8, AsmError>)
    ensures
        r == reg_of(tok@),
{
    let up = to_upper_vec(tok);
    if up.len() < 1 {
        return Err(AsmError::BadRegister);
    }
    if up[0] != 82 {
        return Err(AsmError::BadRegister);
    }
    let digits = copy_range(&up, 1, up.len());
    proof {
        assert(digits@ =~= upper_seq(tok@).skip(1));
    }
    match parse_dec_exec(&digits, 255) {
        Some(n) => {
            if n < 8 {
                Ok(n as u8)
            } else {
                Err(AsmError::BadRegister)
            }
        },
        None => Err(AsmError::BadRegister),
    }
}

/// Look a label up, later definitions shadowing earlier ones.
fn lookup_label(labels: &Vec<(Vec<u8>, usize)>, name: &Vec<u8>) -> (r: Option<usize>)
    ensures
        r == label_lookup(lbl_view(labels@), name@),
{
    let mut i: usize = labels.len();
    proof {
        assert(lbl_view(labels@).take(labels@.len() as int) =~= lbl_view(labels@));
    }
    while i > 0
        invariant
            i <= labels@.len(),
            label_lookup(lbl_view(labels@), name@) == label_lookup(
                lbl_view(labels@).take(i as int),
                name@,
            ),
        decreases i,
    {
        i = i - 1;
        proof {
            assert(lbl_view(labels@).take(i as int + 1).drop_last() =~= lbl_view(labels@).take(
                i as int,
            ));
            assert(lbl_view(labels@).take(i as int + 1).last() == lbl_view(labels@)[i as int]);
            assert(lbl_view(labels@)[i as int] == (labels@[i as int].0@, labels@[i as int].1));
        }
        if eq_bytes(&labels[i].0, name) {
            return Some(labels[i].1);
        }
    }
    proof {
        assert(lbl_view(labels@).take(0) =~= Seq::<(Seq<u8>, usize)>::empty());
    }
    None
}

/// Parse one 8-bit immediate operand, consulting the label table first.
fn parse_immediate(tok: &Vec<u8>, labels: &Vec<(Vec<u8>, usize)>) -> (r: Result<u8, AsmError>)
    ensures
        r == imm_of(tok@, lbl_view(labels@)),
{
    match lookup_label(labels, tok) {
        Some(a) => {
            if a <= 255 {
                Ok(a as u8)
            } else {
                Err(AsmError::BadImmediate)
            }
        },
        None => {
            let hex = tok.len() >= 2 && tok[0] == 48 && tok[1] == 120;
            if hex {
                let stripped = strip0x_exec(tok);
                match parse_hex_exec(&stripped, 255) {
                    Some(v) => Ok(v as u8),
                    None => Err(AsmError::BadImmediate),
                }
            } else {
                match parse_dec_exec(tok, 255) {
                    Some(v) => Ok(v as u8),
                    None => Err(AsmError::BadImmediate),
                }
            }
        },
    }
}

/// Parse one 16-bit immediate operand.
fn parse_wide_immediate(tok: &Vec<u8>) -> (r: Result<u16, AsmError>)
    ensures
        r == wide_imm_of(tok@),
{
    let hex = tok.len() >= 2 && tok[0] == 48 && tok[1] == 120;
    if hex {
        let stripped = strip0x_exec(tok);
        match parse_hex_exec(&stripped, 65535) {
            Some(v) => Ok(v as u16),
            None => Err(AsmError::BadImmediate),
        }
    } else {
        match parse_dec_exec(tok, 65535) {
            Some(v) => Ok(v as u16),
            None => Err(AsmError::BadImmediate),
        }
    }
}

/// Parse the address of a data directive; it must fit the 64 KiB memory.
fn parse_data_address(tok: &Vec<u8>) -> (r: Result<usize, AsmError>)
    ensures
        r == data_addr_of(tok@),
{
    let stripped = strip0x_exec(tok);
    match parse_hex_exec(&stripped, 65535) {
        Some(v) => Ok(v as usize),
        None => Err(AsmError::BadDataAddress),
    }
}

/// Parse one data word.
fn parse_data_value(tok: &Vec<u8>) -> (r: Result<u16, AsmError>)
    ensures
        r == data_value_of(tok@),
{
    let stripped = strip0x_exec(tok);
    match parse_hex_exec(&stripped, 65535) {
        Some(v) => Ok(v as u16),
        None => Err(AsmError::BadDataValue),
    }
}

/// Parse one tokenized instruction line.
fn parse_instruction(toks: &Vec<Vec<u8>>, labels: &Vec<(Vec<u8>, usize)>) -> (r: Result<
    Instruction,
    AsmError,
>)
    requires
        toks@.len() >= 1,
    ensures
        r == inst_of(toks.deep_view(), lbl_view(labels@)),
{
    proof {
        assert(toks.deep_view()[0] == toks@[0]@);
        assert(toks.deep_view().len() == toks@.len());
        assert(forall|k: int|
            0 <= k < toks@.len() ==> #[trigger] toks.deep_view()[k] == toks@[k]@);
    }
    let m = &toks[0];
    if eq_upper_kw(m, "NOP") {
        if toks.len() == 1 {
            Ok(Instruction::Nop)
        } else {
            Err(AsmError::WrongArity)
        }
    } else if eq_upper_kw(m, "ADD") || eq_upper_kw(m, "LOAD") || eq_upper_kw(m, "NAND") {
        if toks.len() != 3 {
            return Err(AsmError::WrongArity);
        }
        let d = match parse_register(&toks[1]) {
            Ok(v) => v,
            Err(e) => { return Err(e) },
        };
        let s = match parse_register(&toks[2]) {
            Ok(v) => v,
            Err(e) => { return Err(e) },
        };
        if eq_upper_kw(m, "ADD") {
            Ok(Instruction::Add { dest: d, src: s })
        } else if eq_upper_kw(m, "LOAD") {
            Ok(Instruction::Load { dest: d, src: s })
        } else {
            Ok(Instruction::Nand { dest: d, src: s })
        }
    } else if eq_upper_kw(m, "ADDI") {
        if toks.len() != 3 {
            return Err(AsmError::WrongArity);
        }
        let d = match parse_register(&toks[1]) {
            Ok(v) => v,
            Err(e) => { return Err(e) },
        };
        match parse_immediate(&toks[2], labels) {
            Ok(v) => Ok(Instruction::AddI { dest: d, imm: v }),
            Err(e) => Err(e),
        }
    } else if eq_upper_kw(m, "LOADI") {
        if toks.len() != 3 {
            return Err(AsmError::WrongArity);
        }
        let d = match parse_register(&toks[1]) {
            Ok(v) => v,
            Err(e) => { return Err(e) },
        };
        match parse_immediate(&toks[2], labels) {
            Ok(v) => Ok(Instruction::LoadI { dest: d, imm: v }),
            Err(e) => Err(e),
        }
    } else if eq_upper_kw(m, "LOADW") {
        if toks.len() != 3 {
            return Err(AsmError::WrongArity);
        }
        let d = match parse_register(&toks[1]) {
            Ok(v) => v,
            Err(e) => { return Err(e) },
        };
        match parse_wide_immediate(&toks[2]) {
            Ok(v) => Ok(Instruction::LoadW { dest: d, imm: v }),
            Err(e) => Err(e),
        }
    } else if eq_upper_kw(m, "STORE") {
        if toks.len() != 3 {
            return Err(AsmError::WrongArity);
        }
        let a = match parse_register(&toks[1]) {
            Ok(v) => v,
            Err(e) => { return Err(e) },
        };
        match parse_register(&toks[2]) {
            Ok(v) => Ok(Instruction::Store { addr: a, src: v }),
            Err(e) => Err(e),
        }
    } else if eq_upper_kw(m, "JZ") {
        if toks.len() != 3 {
            return Err(AsmError::WrongArity);
        }
        let rg = match parse_register(&toks[1]) {
            Ok(v) => v,
            Err(e) => { return Err(e) },
        };
        match parse_immediate(&toks[2], labels) {
            Ok(v) => Ok(Instruction::Jz { reg: rg, addr: v }),
            Err(e) => Err(e),
        }
    } else if eq_upper_kw(m, "GT") {
        if toks.len() != 4 {
            return Err(AsmError::WrongArity);
        }
        let d = match parse_register(&toks[1]) {
            Ok(v) => v,
            Err(e) => { return Err(e) },
        };
        let s1 = match parse_register(&toks[2]) {
            Ok(v) => v,
            Err(e) => { return Err(e) },
        };
        match parse_register(&toks[3]) {
            Ok(v) => Ok(Instruction::Gt { dest: d, src1: s1, src2: v }),
            Err(e) => Err(e),
        }
    } else if eq_upper_kw(m, "FLAG") {
        if toks.len() == 1 {
            Ok(Instruction::Flag)
        } else {
            Err(AsmError::WrongArity)
        }
    } else if eq_upper_kw(m, "HLT") {
        if toks.len() == 1 {
            Ok(Instruction::Invalid)
        } else {
            Err(AsmError::WrongArity)
        }
    } else {
        Err(AsmError::UnknownInstruction)
    }
}

/// Encode one instruction into its 16-bit word.
fn encode_instruction(inst: Instruction) -> (r: u16)
    ensures
        r == spec_encode(inst),
{
    let wide: u32 = match inst {
        Instruction::Nop => 0,
        Instruction::Add { dest, src } => (src as u32) * 256 + (dest as u32) * 16 + 1,
        Instruction::AddI { dest, imm } => (imm as u32) * 256 + (dest as u32) * 16 + 4,
        Instruction::Nand { dest, src } => (src as u32) * 256 + (dest as u32) * 16 + 6,
        Instruction::LoadI { dest, imm } => (imm as u32) * 256 + (dest as u32) * 16 + 8,
        Instruction::Store { addr, src } => (src as u32) * 256 + (addr as u32) * 16 + 9,
        Instruction::Load { dest, src } => (src as u32) * 256 + (dest as u32) * 16 + 11,
        Instruction::Jz { reg, addr } => (addr as u32) * 256 + (reg as u32) * 16 + 12,
        Instruction::LoadW { dest, imm: _ } => (dest as u32) * 16 + 13,
        Instruction::Gt { dest, src1, src2 } => (src2 as u32) * 4096 + (src1 as u32) * 256 + (
        dest as u32) * 16 + 7,
        Instruction::Flag => 14,
        Instruction::Invalid => 15,
    };
    (wide % 0x10000) as u16
}

/// Inside a token scan, the first whitespace at or past `pos` is `end`, in
/// terms of the spec search on the suffix.
proof fn lemma_first_space_at(l: Seq<u8>, pos: int, end: int)
    requires
        0 <= pos <= end <= l.len(),
        forall|k: int| pos <= k < end ==> !ascii_space(#[trigger] l[k]),
        end < l.len() ==> ascii_space(l[end]),
    ensures
        first_space(l.skip(pos)) == (if end < l.len() {
            end - pos
        } else {
            -1int
        }),
    decreases end - pos,
{
    if pos < end {
        assert(l.skip(pos).drop_first() =~= l.skip(pos + 1));
        assert(l.skip(pos)[0] == l[pos]);
        lemma_first_space_at(l, pos + 1, end);
    } else {
        if end < l.len() {
            assert(l.skip(pos)[0] == l[pos]);
        } else {
            assert(l.skip(pos) =~= Seq::<u8>::empty());
        }
    }
}

/// One line stripped of its comment and surrounding whitespace.
pub open spec fn clean(l: Seq<u8>) -> Seq<u8> {
    trim(strip_comment(l))
}

/// The line starts the data-section directive.
pub open spec fn is_data_directive(l: Seq<u8>) -> bool {
    l.len() >= kwb(".data").len() && l.take(kwb(".data").len() as int) == kwb(".data")
}

/// The state the label pass carries: the labels seen so far, whether the
/// scan is inside a data section, and the next instruction byte address.
pub struct Pass1 {
    pub labels: Seq<(Seq<u8>, usize)>,
    pub in_data: bool,
    pub iaddr: usize,
}

/// What the label pass does with one cleaned line.
#[verifier::opaque]
pub open spec fn pass1_line(st: Pass1, l: Seq<u8>) -> Result<Pass1, AsmError> {
    if l.len() == 0 {
        Ok(st)
    } else if is_data_directive(l) {
        let parts = tokens(l);
        if parts.len() != 2 {
            Err(AsmError::BadDirective)
        } else {
            match data_addr_of(parts[1]) {
                Err(e) => Err(e),
                Ok(_) => Ok(Pass1 { labels: st.labels, in_data: true, iaddr: st.iaddr }),
            }
        }
    } else if l == kwb(".text") {
        Ok(Pass1 { labels: st.labels, in_data: false, iaddr: st.iaddr })
    } else if st.in_data {
        Ok(st)
    } else if l.last() == 58 {
        Ok(
            Pass1 {
                labels: st.labels.push((trim(l.take(l.len() - 1)), st.iaddr)),
                in_data: st.in_data,
                iaddr: st.iaddr,
            },
        )
    } else {
        let parts = tokens(l);
        if parts.len() == 0 {
            Ok(st)
        } else {
            let step: usize = if upper_seq(parts[0]) == kwb("LOADW") {
                4
            } else {
                2
            };
            if st.iaddr + step > MEM_SIZE {
                Err(AsmError::ImageTooLarge)
            } else {
                Ok(
                    Pass1 {
                        labels: st.labels,
                        in_data: st.in_data,
                        iaddr: (st.iaddr + step) as usize,
                    },
                )
            }
        }
    }
}

/// The label pass over the remaining lines.
pub open spec fn pass1_lines(st: Pass1, lines: Seq<Seq<u8>>) -> Result<Pass1, AsmError>
    decreases lines.len(),
{
    if lines.len() == 0 {
        Ok(st)
    } else {
        match pass1_line(st, clean(lines[0])) {
            Err(e) => Err(e),
            Ok(st2) => pass1_lines(st2, lines.drop_first()),
        }
    }
}

/// The state the encoding pass carries: whether the scan is inside a data
/// section, the next data byte address, the encoded instruction words, and
/// the placed data words in order of appearance.
pub struct Pass2 {
    pub in_data: bool,
    pub daddr: usize,
    pub words: Seq<u16>,
    pub data: Seq<(usize, u16)>,
}

/// What the encoding pass does with one cleaned line.
#[verifier::opaque]
pub open spec fn pass2_line(st: Pass2, l: Seq<u8>, labels: Seq<(Seq<u8>, usize)>) -> Result<
    Pass2,
    AsmError,
> {
    if l.len() == 0 {
        Ok(st)
    } else if is_data_directive(l) {
        let parts = tokens(l);
        if parts.len() != 2 {
            Err(AsmError::BadDirective)
        } else {
            match data_addr_of(parts[1]) {
                Err(e) => Err(e),
                Ok(a) => Ok(
                    Pass2 { in_data: true, daddr: a, words: st.words, data: st.data },
                ),
            }
        }
    } else if l == kwb(".text") {
        Ok(Pass2 { in_data: false, daddr: st.daddr, words: st.words, data: st.data })
    } else if st.in_data {
        match data_value_of(l) {
            Err(e) => Err(e),
            Ok(v) => if st.daddr + 1 >= MEM_SIZE {
                Err(AsmError::ImageTooLarge)
            } else {
                Ok(
                    Pass2 {
                        in_data: st.in_data,
                        daddr: (st.daddr + 2) as usize,
                        words: st.words,
                        data: st.data.push((st.daddr, v)),
                    },
                )
            },
        }
    } else if l.last() == 58 {
        Ok(st)
    } else {
        let parts = tokens(l);
        if parts.len() == 0 {
            Ok(st)
        } else {
            match inst_of(parts, labels) {
                Err(e) => Err(e),
                Ok(inst) => {
                    let n: int = if inst is LoadW {
                        2
                    } else {
                        1
                    };
                    if (st.words.len() + n) * 2 > MEM_SIZE {
                        Err(AsmError::ImageTooLarge)
                    } else {
                        let w1 = st.words.push(spec_encode(inst));
                        let w2 = match inst {
                            Instruction::LoadW { dest: _, imm } => w1.push(imm),
                            _ => w1,
                        };
                        Ok(
                            Pass2 {
                                in_data: st.in_data,
                                daddr: st.daddr,
                                words: w2,
                                data: st.data,
                            },
                        )
                    }
                },
            }
        }
    }
}

/// The encoding pass over the remaining lines.
pub open spec fn pass2_lines(st: Pass2, lines: Seq<Seq<u8>>, labels: Seq<(Seq<u8>, usize)>)
    -> Result<Pass2, AsmError>
    decreases lines.len(),
{
    if lines.len() == 0 {
        Ok(st)
    } else {
        match pass2_line(st, clean(lines[0]), labels) {
            Err(e) => Err(e),
            Ok(st2) => pass2_lines(st2, lines.drop_first(), labels),
        }
    }
}

/// The first placed data word that falls inside the instruction stream,
/// whose length in bytes is `ilen2`.
pub open spec fn overlap_fault(ilen2: int, data: Seq<(usize, u16)>) -> Option<AsmError>
    decreases data.len(),
{
    if data.len() == 0 {
        None
    } else if data[0].0 < ilen2 {
        Some(AsmError::DataOverlap { addr: data[0].0 })
    } else {
        overlap_fault(ilen2, data.drop_first())
    }
}

/// The word image after placing every data word over the instruction
/// stream, in order of appearance, extending the image with zero words
/// where a data address lies past its end.
pub open spec fn merge_words(words: Seq<u16>, data: Seq<(usize, u16)>) -> Result<
    Seq<u16>,
    AsmError,
>
    decreases data.len(),
{
    if data.len() == 0 {
        Ok(words)
    } else {
        match merge_words(words, data.drop_last()) {
            Err(e) => Err(e),
            Ok(m) => {
                let a = data.last().0;
                let v = data.last().1;
                if a % 2 != 0 {
                    Err(AsmError::MisalignedData { addr: a })
                } else {
                    let idx = a / 2;
                    let base = if idx < m.len() {
                        m
                    } else {
                        m + Seq::new((idx + 1 - m.len()) as nat, |_i: int| 0u16)
                    };
                    Ok(base.update(idx as int, v))
                }
            },
        }
    }
}

/// A merge fault of a data prefix is the fault of the whole merge.
proof fn lemma_merge_err(words: Seq<u16>, data: Seq<(usize, u16)>, k: int)
    requires
        0 <= k <= data.len(),
        merge_words(words, data.take(k)) is Err,
    ensures
        merge_words(words, data) == merge_words(words, data.take(k)),
    decreases data.len() - k,
{
    if k < data.len() {
        assert(data.take(k + 1).drop_last() =~= data.take(k));
        lemma_merge_err(words, data, k + 1);
    } else {
        assert(data.take(k) =~= data);
    }
}

/// What assembling the program text returns: the word image of a two-pass
/// assembly with label resolution, or the first fault the scan runs into.
pub open spec fn spec_assemble(bytes: Seq<u8>) -> Result<Seq<u16>, AsmError> {
    let lines = split_lines(bytes);
    match pass1_lines(Pass1 { labels: Seq::empty(), in_data: false, iaddr: 0 }, lines) {
        Err(e) => Err(e),
        Ok(p1) => match pass2_lines(
            Pass2 { in_data: false, daddr: 0, words: Seq::empty(), data: Seq::empty() },
            lines,
            p1.labels,
        ) {
            Err(e) => Err(e),
            Ok(p2) => match overlap_fault(2 * p2.words.len() as int, p2.data) {
                Some(e) => Err(e),
                None => merge_words(p2.words, p2.data),
            },
        },
    }
}


/// Apply one raw source line to the label pass's state.
fn pass1_exec_line(
    labels: &mut Vec<(Vec<u8>, usize)>,
    in_data: &mut bool,
    iaddr: &mut usize,
    line: &Vec<u8>,
) -> (r: Result<(), AsmError>)
    requires
        *old(iaddr) <= MEM_SIZE,
    ensures
        *final(iaddr) <= MEM_SIZE,
        match r {
            Ok(_) => pass1_line(
                Pass1 {
                    labels: lbl_view(old(labels)@),
                    in_data: *old(in_data),
                    iaddr: *old(iaddr),
                },
                clean(line@),
            ) == Ok::<Pass1, AsmError>(
                Pass1 {
                    labels: lbl_view(final(labels)@),
                    in_data: *final(in_data),
                    iaddr: *final(iaddr),
                },
            ),
            Err(e) => pass1_line(
                Pass1 {
                    labels: lbl_view(old(labels)@),
                    in_data: *old(in_data),
                    iaddr: *old(iaddr),
                },
                clean(line@),
            ) == Err::<Pass1, AsmError>(e),
        },
{
    proof {
        reveal(pass1_line);
    }
    let ghost stg = Pass1 {
        labels: lbl_view(labels@),
        in_data: *in_data,
        iaddr: *iaddr,
    };
    let cl = clean_line(line);
    if cl.len() == 0 {
        return Ok(());
    }
    if starts_kw(&cl, ".data") {
        let parts = tokenize(&cl);
        proof {
            assert(parts.deep_view().len() == parts@.len());
            if parts@.len() > 1 {
                assert(parts.deep_view()[1] == parts@[1]@);
            }
        }
        if parts.len() != 2 {
            return Err(AsmError::BadDirective);
        }
        match parse_data_address(&parts[1]) {
            Ok(_) => {
                *in_data = true;
                return Ok(());
            },
            Err(e) => {
                return Err(e);
            },
        }
    }
    if eq_kw(&cl, ".text") {
        *in_data = false;
        return Ok(());
    }
    if *in_data {
        return Ok(());
    }
    if cl[cl.len() - 1] == 58 {
        let name = trim_range(&cl, 0, cl.len() - 1);
        proof {
            assert(cl@.subrange(0, cl@.len() - 1) =~= cl@.take(cl@.len() - 1));
        }
        labels.push((name, *iaddr));
        proof {
            assert(lbl_view(labels@) =~= stg.labels.push(
                (trim(cl@.take(cl@.len() - 1)), stg.iaddr),
            ));
        }
        return Ok(());
    }
    let parts = tokenize(&cl);
    proof {
        assert(parts.deep_view().len() == parts@.len());
        if parts@.len() > 0 {
            assert(parts.deep_view()[0] == parts@[0]@);
        }
    }
    if parts.len() == 0 {
        return Ok(());
    }
    let step: usize = if eq_upper_kw(&parts[0], "LOADW") {
        4
    } else {
        2
    };
    if *iaddr + step > MEM_SIZE {
        return Err(AsmError::ImageTooLarge);
    }
    *iaddr = *iaddr + step;
    Ok(())
}

/// Apply one raw source line to the encoding pass's state.
#[verifier::rlimit(100)]
fn pass2_exec_line(
    words: &mut Vec<u16>,
    data: &mut Vec<(usize, u16)>,
    in_data: &mut bool,
    daddr: &mut usize,
    line: &Vec<u8>,
    labels: &Vec<(Vec<u8>, usize)>,
) -> (r: Result<(), AsmError>)
    requires
        *old(daddr) <= MEM_SIZE,
        old(words)@.len() * 2 <= MEM_SIZE,
        forall|k: int| 0 <= k < old(data)@.len() ==> (#[trigger] old(data)@[k]).0 + 1 < MEM_SIZE,
    ensures
        *final(daddr) <= MEM_SIZE,
        final(words)@.len() * 2 <= MEM_SIZE,
        forall|k: int|
            0 <= k < final(data)@.len() ==> (#[trigger] final(data)@[k]).0 + 1 < MEM_SIZE,
        match r {
            Ok(_) => pass2_line(
                Pass2 {
                    in_data: *old(in_data),
                    daddr: *old(daddr),
                    words: old(words)@,
                    data: old(data)@,
                },
                clean(line@),
                lbl_view(labels@),
            ) == Ok::<Pass2, AsmError>(
                Pass2 {
                    in_data: *final(in_data),
                    daddr: *final(daddr),
                    words: final(words)@,
                    data: final(data)@,
                },
            ),
            Err(e) => pass2_line(
                Pass2 {
                    in_data: *old(in_data),
                    daddr: *old(daddr),
                    words: old(words)@,
                    data: old(data)@,
                },
                clean(line@),
                lbl_view(labels@),
            ) == Err::<Pass2, AsmError>(e),
        },
{
    proof {
        reveal(pass2_line);
    }
    let cl = clean_line(line);
    if cl.len() == 0 {
        return Ok(());
    }
    if starts_kw(&cl, ".data") {
        let parts = tokenize(&cl);
        proof {
            assert(parts.deep_view().len() == parts@.len());
            if parts@.len() > 1 {
                assert(parts.deep_view()[1] == parts@[1]@);
            }
        }
        if parts.len() != 2 {
            return Err(AsmError::BadDirective);
        }
        match parse_data_address(&parts[1]) {
            Ok(a) => {
                *in_data = true;
                *daddr = a;
                return Ok(());
            },
            Err(e) => {
                return Err(e);
            },
        }
    }
    if eq_kw(&cl, ".text") {
        *in_data = false;
        return Ok(());
    }
    if *in_data {
        match parse_data_value(&cl) {
            Ok(v) => {
                if *daddr + 1 >= MEM_SIZE {
                    return Err(AsmError::ImageTooLarge);
                }
                data.push((*daddr, v));
                *daddr = *daddr + 2;
                return Ok(());
            },
            Err(e) => {
                return Err(e);
            },
        }
    }
    if cl[cl.len() - 1] == 58 {
        return Ok(());
    }
    let parts = tokenize(&cl);
    proof {
        assert(parts.deep_view().len() == parts@.len());
    }
    if parts.len() == 0 {
        return Ok(());
    }
    let inst = match parse_instruction(&parts, labels) {
        Ok(v) => v,
        Err(e) => {
            return Err(e);
        },
    };
    let n: usize = match inst {
        Instruction::LoadW { .. } => 2,
        _ => 1,
    };
    if (words.len() + n) * 2 > MEM_SIZE {
        return Err(AsmError::ImageTooLarge);
    }
    words.push(encode_instruction(inst));
    match inst {
        Instruction::LoadW { dest: _, imm } => {
            words.push(imm);
        },
        _ => {},
    }
    Ok(())
}

/// Assemble a textual program into its 16-bit word image: a first pass
/// collects label addresses, a second pass encodes instructions and places
/// data words, and the merged image is held against overlaps. The image
/// always fits the 64 KiB memory; a longer program is rejected.
pub fn assemble(program: &str) -> (r: Result<Vec<u16>, AsmError>)
    ensures
        match r {
            Ok(v) => spec_assemble(program.spec_bytes()) == Ok::<Seq<u16>, AsmError>(v@)
                && v@.len() * 2 <= MEM_SIZE,
            Err(e) => spec_assemble(program.spec_bytes()) == Err::<Seq<u16>, AsmError>(e),
        },
{
    let bytes = vstd::slice::slice_to_vec(program.as_bytes());
    let lines = split_lines_exec(&bytes);
    let ghost lseq = split_lines(program.spec_bytes());
    let ghost total1 = pass1_lines(
        Pass1 { labels: Seq::empty(), in_data: false, iaddr: 0 },
        lseq,
    );
    let mut labels: Vec<(Vec<u8>, usize)> = Vec::new();
    let mut in_data: bool = false;
    let mut iaddr: usize = 0;
    let mut i: usize = 0;
    proof {
        assert(lseq.skip(0) =~= lseq);
        assert(lbl_view(labels@) =~= Seq::<(Seq<u8>, usize)>::empty());
    }
    while i < lines.len()
        invariant
            i <= lines@.len(),
            lines.deep_view() == lseq,
            lseq == split_lines(program.spec_bytes()),
            iaddr <= MEM_SIZE,
            total1 == pass1_lines(
                Pass1 { labels: lbl_view(labels@), in_data, iaddr },
                lseq.skip(i as int),
            ),
            total1 == pass1_lines(Pass1 { labels: Seq::empty(), in_data: false, iaddr: 0 }, lseq),
        decreases lines@.len() - i,
    {
        proof {
            assert(lseq.skip(i as int).drop_first() =~= lseq.skip(i as int + 1));
            assert(lseq.skip(i as int)[0] == lines.deep_view()[i as int]);
            assert(lines.deep_view()[i as int] == lines@[i as int]@);
        }
        match pass1_exec_line(&mut labels, &mut in_data, &mut iaddr, &lines[i]) {
            Ok(_) => {},
            Err(e) => {
                proof {
                    assert(total1 == Err::<Pass1, AsmError>(e));
                    assert(spec_assemble(program.spec_bytes()) == Err::<Seq<u16>, AsmError>(e));
                }
                return Err(e);
            },
        }
        i = i + 1;
    }
    proof {
        assert(lseq.skip(lines@.len() as int) =~= Seq::<Seq<u8>>::empty());
    }
    let ghost p1labels = lbl_view(labels@);
    let ghost total2 = pass2_lines(
        Pass2 { in_data: false, daddr: 0, words: Seq::empty(), data: Seq::empty() },
        lseq,
        p1labels,
    );
    let mut words: Vec<u16> = Vec::new();
    let mut data: Vec<(usize, u16)> = Vec::new();
    let mut in_data2: bool = false;
    let mut daddr: usize = 0;
    let mut i2: usize = 0;
    proof {
        assert(words@ =~= Seq::<u16>::empty());
        assert(data@ =~= Seq::<(usize, u16)>::empty());
    }
    while i2 < lines.len()
        invariant
            i2 <= lines@.len(),
            lines.deep_view() == lseq,
            lseq == split_lines(program.spec_bytes()),
            p1labels == lbl_view(labels@),
            daddr <= MEM_SIZE,
            words@.len() * 2 <= MEM_SIZE,
            forall|k: int| 0 <= k < data@.len() ==> (#[trigger] data@[k]).0 + 1 < MEM_SIZE,
            total2 == pass2_lines(
                Pass2 { in_data: in_data2, daddr, words: words@, data: data@ },
                lseq.skip(i2 as int),
                p1labels,
            ),
            total1 == pass1_lines(Pass1 { labels: Seq::empty(), in_data: false, iaddr: 0 }, lseq),
            total1 == Ok::<Pass1, AsmError>(Pass1 { labels: p1labels, in_data, iaddr }),
            total2 == pass2_lines(
                Pass2 { in_data: false, daddr: 0, words: Seq::empty(), data: Seq::empty() },
                lseq,
                p1labels,
            ),
        decreases lines@.len() - i2,
    {
        proof {
            assert(lseq.skip(i2 as int).drop_first() =~= lseq.skip(i2 as int + 1));
            assert(lseq.skip(i2 as int)[0] == lines.deep_view()[i2 as int]);
            assert(lines.deep_view()[i2 as int] == lines@[i2 as int]@);
        }
        match pass2_exec_line(&mut words, &mut data, &mut in_data2, &mut daddr, &lines[i2], &labels) {
            Ok(_) => {},
            Err(e) => {
                proof {
                    assert(total2 == Err::<Pass2, AsmError>(e));
                    assert(spec_assemble(program.spec_bytes()) == Err::<Seq<u16>, AsmError>(e));
                }
                return Err(e);
            },
        }
        i2 = i2 + 1;
    }
    proof {
        assert(lseq.skip(lines@.len() as int) =~= Seq::<Seq<u8>>::empty());
    }
    let ghost wseq = words@;
    let ghost dseq = data@;
    let ilen2: usize = 2 * words.len();
    let mut k: usize = 0;
    proof {
        assert(dseq.skip(0) =~= dseq);
    }
    while k < data.len()
        invariant
            k <= data@.len(),
            data@ == dseq,
            ilen2 == 2 * wseq.len(),
            total2 == Ok::<Pass2, AsmError>(
                Pass2 { in_data: in_data2, daddr, words: wseq, data: dseq },
            ),
            total2 == pass2_lines(
                Pass2 { in_data: false, daddr: 0, words: Seq::empty(), data: Seq::empty() },
                lseq,
                p1labels,
            ),
            total1 == pass1_lines(Pass1 { labels: Seq::empty(), in_data: false, iaddr: 0 }, lseq),
            total1 == Ok::<Pass1, AsmError>(Pass1 { labels: p1labels, in_data, iaddr }),
            lseq == split_lines(program.spec_bytes()),
            overlap_fault(ilen2 as int, dseq) == overlap_fault(ilen2 as int, dseq.skip(k as int)),
        decreases data@.len() - k,
    {
        proof {
            assert(dseq.skip(k as int).drop_first() =~= dseq.skip(k as int + 1));
            assert(dseq.skip(k as int)[0] == dseq[k as int]);
        }
        if data[k].0 < ilen2 {
            proof {
                assert(overlap_fault(ilen2 as int, dseq) == Some(
                    AsmError::DataOverlap { addr: dseq[k as int].0 },
                ));
                assert(spec_assemble(program.spec_bytes()) == Err::<Seq<u16>, AsmError>(
                    AsmError::DataOverlap { addr: dseq[k as int].0 },
                ));
            }
            return Err(AsmError::DataOverlap { addr: data[k].0 });
        }
        k = k + 1;
    }
    proof {
        assert(dseq.skip(dseq.len() as int) =~= Seq::<(usize, u16)>::empty());
        assert(overlap_fault(ilen2 as int, dseq) is None);
    }
    let mut image: Vec<u16> = words;
    let mut k2: usize = 0;
    proof {
        assert(dseq.take(0) =~= Seq::<(usize, u16)>::empty());
    }
    while k2 < data.len()
        invariant
            k2 <= data@.len(),
            data@ == dseq,
            forall|j: int| 0 <= j < dseq.len() ==> (#[trigger] dseq[j]).0 + 1 < MEM_SIZE,
            image@.len() * 2 <= MEM_SIZE,
            total2 == Ok::<Pass2, AsmError>(
                Pass2 { in_data: in_data2, daddr, words: wseq, data: dseq },
            ),
            total2 == pass2_lines(
                Pass2 { in_data: false, daddr: 0, words: Seq::empty(), data: Seq::empty() },
                lseq,
                p1labels,
            ),
            total1 == pass1_lines(Pass1 { labels: Seq::empty(), in_data: false, iaddr: 0 }, lseq),
            total1 == Ok::<Pass1, AsmError>(Pass1 { labels: p1labels, in_data, iaddr }),
            lseq == split_lines(program.spec_bytes()),
            overlap_fault(2 * wseq.len() as int, dseq) is None,
            merge_words(wseq, dseq.take(k2 as int)) == Ok::<Seq<u16>, AsmError>(image@),
        decreases data@.len() - k2,
    {
        proof {
            assert(dseq.take(k2 as int + 1).drop_last() =~= dseq.take(k2 as int));
            assert(dseq.take(k2 as int + 1).last() == dseq[k2 as int]);
        }
        let a = data[k2].0;
        let v = data[k2].1;
        if a % 2 != 0 {
            proof {
                lemma_merge_err(wseq, dseq, k2 + 1);
                assert(spec_assemble(program.spec_bytes()) == Err::<Seq<u16>, AsmError>(
                    AsmError::MisalignedData { addr: a },
                ));
            }
            return Err(AsmError::MisalignedData { addr: a });
        }
        let idx = a / 2;
        let ghost before = image@;
        proof {
            assert(image@ =~= before + Seq::new(0nat, |_j: int| 0u16));
        }
        while image.len() < idx + 1
            invariant
                idx + 1 <= 32768,
                image@.len() <= 32768,
                before.len() <= image@.len(),
                before.len() >= idx + 1 ==> image@.len() == before.len(),
                before.len() < idx + 1 ==> image@.len() <= idx + 1,
                image@ == before + Seq::new((image@.len() - before.len()) as nat, |_j: int| 0u16),
            decreases idx + 1 - image@.len(),
        {
            image.push(0);
            proof {
                assert(image@ =~= before + Seq::new(
                    (image@.len() - before.len()) as nat,
                    |_j: int| 0u16,
                ));
            }
        }
        proof {
            if idx < before.len() {
                assert(image@ =~= before);
            } else {
                assert(image@ =~= before + Seq::new(
                    (idx + 1 - before.len()) as nat,
                    |_j: int| 0u16,
                ));
            }
        }
        image[idx] = v;
        k2 = k2 + 1;
    }
    proof {
        assert(dseq.take(dseq.len() as int) =~= dseq);
        assert(merge_words(wseq, dseq) == Ok::<Seq<u16>, AsmError>(image@));
        assert(spec_assemble(program.spec_bytes()) == Ok::<Seq<u16>, AsmError>(image@));
    }
    Ok(image)
}

} // verus!
