//! The hexadecimal preview of binary entries.
use crate::stdx::string_from_chars;
use vstd::prelude::*;

verus! {

/// The lower-case hexadecimal digit of `d` (below 16).
pub open spec fn hex_digit(d: nat) -> char {
    if d < 10 {
        (d + 48) as char
    } else {
        (d + 87) as char
    }
}

/// The lower-case hexadecimal numeral of `n`, without leading zeros (`0` for zero).
pub open spec fn hex_digits(n: nat) -> Seq<char>
    decreases n,
{
    if n < 16 {
        seq![hex_digit(n)]
    } else {
        hex_digits(n / 16).push(hex_digit(n % 16))
    }
}

/// `s` with zeros put in front until it is `width` long (as the `{:0width$x}` format does).
pub open spec fn zero_padded(s: Seq<char>, width: nat) -> Seq<char> {
    if s.len() < width {
        Seq::new((width - s.len()) as nat, |i: int| '0') + s
    } else {
        s
    }
}

/// The numeral of `n` in lower-case hexadecimal, at least `width` digits.
pub open spec fn hex_padded(n: nat, width: nat) -> Seq<char> {
    zero_padded(hex_digits(n), width)
}

/// Each byte as two hexadecimal digits followed by a space.
pub open spec fn byte_column(chunk: Seq<u8>) -> Seq<char>
    decreases chunk.len(),
{
    if chunk.len() == 0 {
        Seq::empty()
    } else {
        byte_column(chunk.drop_last()) + hex_padded(chunk.last() as nat, 2) + seq![' ']
    }
}

/// A byte as shown in the text column: itself if it is a graphic ASCII character or a space,
/// else `.`.
pub open spec fn shown_char(b: u8) -> char {
    if 0x20 <= b <= 0x7e {
        b as char
    } else {
        '.'
    }
}

/// One line of the dump: the offset in eight hex digits, the bytes in hex (padded to sixteen
/// columns), and the bytes as text between bars.
pub open spec fn dump_line(offset: nat, chunk: Seq<u8>) -> Seq<char> {
    hex_padded(offset, 8) + seq![' ', ' '] + byte_column(chunk) + Seq::new(
        (3 * (16 - chunk.len())) as nat,
        |i: int| ' ',
    ) + seq![' ', '|'] + chunk.map_values(|b: u8| shown_char(b)) + seq!['|', '\n']
}

/// The lines of the dump of `rest`, whose first byte stands at `offset`: one line per sixteen
/// bytes (the last line may hold fewer).
pub open spec fn dump_lines(rest: Seq<u8>, offset: nat) -> Seq<char>
    decreases rest.len(),
{
    if rest.len() == 0 {
        Seq::empty()
    } else if rest.len() <= 16 {
        dump_line(offset, rest)
    } else {
        dump_line(offset, rest.take(16)) + dump_lines(rest.skip(16), offset + 16)
    }
}

/// The dump of the first `max_bytes` bytes of `data` (all of it if shorter), and whether
/// `data` was longer than that.
pub open spec fn spec_hex_dump(data: Seq<u8>, max_bytes: nat) -> (Seq<char>, bool) {
    let shown = if data.len() <= max_bytes {
        data
    } else {
        data.take(max_bytes as int)
    };
    (dump_lines(shown, 0), data.len() > max_bytes)
}

fn hex_digit_char(d: usize) -> (c: char)
    requires
        d < 16,
    ensures
        c == hex_digit(d as nat),
{
    let b: u8 = if d < 10 {
        (d as u8) + 48
    } else {
        (d as u8) + 87
    };
    b as char
}

fn hex_len(n: usize) -> (r: usize)
    ensures
        r == hex_digits(n as nat).len(),
        r <= 16,
    decreases n,
{
    if n < 16 {
        1
    } else {
        let k = hex_len(n / 16);
        proof {
            lemma_hex_len_bound(n as nat);
        }
        k + 1
    }
}

proof fn lemma_hex_len_bound(n: nat)
    requires
        n <= usize::MAX,
    ensures
        hex_digits(n).len() <= 16,
{
    reveal_with_fuel(pow16, 17);
    assert(pow16(16) == 0x1_0000_0000_0000_0000);
    lemma_hex_len_scaled(n, 16);
}

proof fn lemma_hex_len_scaled(n: nat, k: nat)
    requires
        1 <= k,
        n < pow16(k),
    ensures
        hex_digits(n).len() <= k,
    decreases n,
{
    if n >= 16 {
        assert(k >= 2) by {
            if k == 1 {
                assert(pow16(1) == 16 * pow16(0));
            }
        }
        assert(n / 16 < pow16((k - 1) as nat)) by {
            assert(pow16(k) == 16 * pow16((k - 1) as nat));
        }
        lemma_hex_len_scaled(n / 16, (k - 1) as nat);
    }
}

spec fn pow16(k: nat) -> nat
    decreases k,
{
    if k == 0 {
        1
    } else {
        16 * pow16((k - 1) as nat)
    }
}

/// Appends the hexadecimal numeral of `n`.
fn push_hex(out: &mut Vec<char>, n: usize)
    ensures
        final(out)@ == old(out)@ + hex_digits(n as nat),
    decreases n,
{
    if n < 16 {
        out.push(hex_digit_char(n));
    } else {
        push_hex(out, n / 16);
        out.push(hex_digit_char(n % 16));
    }
}

/// Appends the hexadecimal numeral of `n`, zero-padded to `width` digits.
fn push_hex_padded(out: &mut Vec<char>, n: usize, width: usize)
    ensures
        final(out)@ == old(out)@ + hex_padded(n as nat, width as nat),
{
    let ghost start = out@;
    let len = hex_len(n);
    if len < width {
        let mut k: usize = 0;
        while k < width - len
            invariant
                len < width,
                0 <= k <= width - len,
                out@ == start + Seq::new(k as nat, |i: int| '0'),
            decreases width - len - k,
        {
            out.push('0');
            k = k + 1;
            assert(out@ =~= start + Seq::new(k as nat, |i: int| '0'));
        }
    }
    let ghost mid = out@;
    push_hex(out, n);
    assert(out@ =~= start + hex_padded(n as nat, width as nat));
}

/// Appends one dump line for `chunk` (at most sixteen bytes) at `offset`.
fn push_dump_line(out: &mut Vec<char>, offset: usize, chunk: &[u8])
    requires
        chunk@.len() <= 16,
    ensures
        final(out)@ == old(out)@ + dump_line(offset as nat, chunk@),
{
    let ghost start = out@;
    push_hex_padded(out, offset, 8);
    out.push(' ');
    out.push(' ');
    let ghost after_offset = out@;
    assert(after_offset =~= start + hex_padded(offset as nat, 8) + seq![' ', ' ']);
    let mut i: usize = 0;
    while i < chunk.len()
        invariant
            0 <= i <= chunk@.len(),
            out@ == after_offset + byte_column(chunk@.take(i as int)),
        decreases chunk@.len() - i,
    {
        let ghost before = out@;
        push_hex_padded(out, chunk[i] as usize, 2);
        out.push(' ');
        assert(chunk@.take(i + 1).drop_last() =~= chunk@.take(i as int));
        assert(out@ =~= after_offset + byte_column(chunk@.take(i + 1)));
        i = i + 1;
    }
    assert(chunk@.take(chunk@.len() as int) =~= chunk@);
    let ghost after_bytes = out@;
    let mut k: usize = chunk.len();
    while k < 16
        invariant
            chunk@.len() <= k <= 16,
            out@ == after_bytes + Seq::new((3 * (k - chunk@.len())) as nat, |j: int| ' '),
        decreases 16 - k,
    {
        out.push(' ');
        out.push(' ');
        out.push(' ');
        k = k + 1;
        assert(out@ =~= after_bytes + Seq::new((3 * (k - chunk@.len())) as nat, |j: int| ' '));
    }
    out.push(' ');
    out.push('|');
    let ghost before_text = out@;
    let mut i: usize = 0;
    while i < chunk.len()
        invariant
            0 <= i <= chunk@.len(),
            out@ == before_text + chunk@.take(i as int).map_values(|b: u8| shown_char(b)),
        decreases chunk@.len() - i,
    {
        let b = chunk[i];
        let c: char = if (0x20 <= b && b <= 0x7e) {
            b as char
        } else {
            '.'
        };
        out.push(c);
        assert(out@ =~= before_text + chunk@.take(i + 1).map_values(|b: u8| shown_char(b)));
        i = i + 1;
    }
    out.push('|');
    out.push('\n');
    assert(out@ =~= start + dump_line(offset as nat, chunk@));
}

/// A hexadecimal preview of at most `max_bytes` bytes of `data`: sixteen bytes per line, each
/// line with its offset, the bytes in hex and the bytes as text. The flag says whether `data`
/// was longer than the preview.
pub fn hex_dump(data: &[u8], max_bytes: usize) -> (r: (String, bool))
    ensures
        r.0@ == spec_hex_dump(data@, max_bytes as nat).0,
        r.1 == spec_hex_dump(data@, max_bytes as nat).1,
{
    let shown_len = if data.len() <= max_bytes {
        data.len()
    } else {
        max_bytes
    };
    let ghost shown = if data@.len() <= max_bytes {
        data@
    } else {
        data@.take(max_bytes as int)
    };
    assert(shown =~= data@.take(shown_len as int));
    let mut out: Vec<char> = Vec::new();
    let mut start: usize = 0;
    assert(shown.skip(0) =~= shown);
    while start < shown_len
        invariant
            shown_len <= data@.len(),
            shown == data@.take(shown_len as int),
            0 <= start <= shown_len,
            out@ + dump_lines(shown.skip(start as int), start as nat) == dump_lines(shown, 0),
        decreases shown_len - start,
    {
        let ghost rest = shown.skip(start as int);
        let end = if shown_len - start <= 16 {
            shown_len
        } else {
            start + 16
        };
        let chunk = vstd::slice::slice_subrange(data, start, end);
        assert(chunk@ =~= if rest.len() <= 16 {
            rest
        } else {
            rest.take(16)
        });
        let ghost before = out@;
        push_dump_line(&mut out, start, chunk);
        proof {
            if rest.len() > 16 {
                assert(rest.skip(16) =~= shown.skip(end as int));
            } else {
                assert(shown.skip(end as int) =~= Seq::<u8>::empty());
            }
        }
        assert(out@ + dump_lines(shown.skip(end as int), end as nat) =~= before + dump_lines(
            rest,
            start as nat,
        ));
        start = end;
    }
    assert(shown.skip(start as int) =~= Seq::<u8>::empty());
    assert(out@ =~= dump_lines(shown, 0));
    (string_from_chars(out.as_slice()), data.len() > max_bytes)
}

/// A byte's numeral, zero-padded to two digits, is its high and low hexadecimal digits.
proof fn lemma_byte_hex(b: u8)
    ensures
        hex_padded(b as nat, 2) == seq![hex_digit(b as nat / 16), hex_digit(b as nat % 16)],
{
    if (b as nat) < 16 {
        assert(hex_digit(0) == '0');
        assert(hex_padded(b as nat, 2) =~= seq![hex_digit(b as nat / 16), hex_digit(b as nat % 16)]);
    } else {
        let n = b as nat;
        assert(n / 16 < 16);
        assert(hex_digits(n / 16) == seq![hex_digit(n / 16)]);
        assert(hex_digits(n) =~= seq![hex_digit(n / 16), hex_digit(n % 16)]);
    }
}

/// The byte column holds three characters per byte: its two hexadecimal digits and a space.
proof fn lemma_byte_column(chunk: Seq<u8>)
    ensures
        byte_column(chunk).len() == 3 * chunk.len(),
        forall|k: int| 0 <= k < chunk.len() ==> {
            &&& byte_column(chunk)[3 * k] == hex_digit(#[trigger] chunk[k] as nat / 16)
            &&& byte_column(chunk)[3 * k + 1] == hex_digit(chunk[k] as nat % 16)
            &&& byte_column(chunk)[3 * k + 2] == ' '
        },
    decreases chunk.len(),
{
    if chunk.len() > 0 {
        let front = chunk.drop_last();
        lemma_byte_column(front);
        lemma_byte_hex(chunk.last());
        let col = byte_column(chunk);
        assert(col == byte_column(front) + hex_padded(chunk.last() as nat, 2) + seq![' ']);
        assert forall|k: int| 0 <= k < chunk.len() implies {
            &&& byte_column(chunk)[3 * k] == hex_digit(#[trigger] chunk[k] as nat / 16)
            &&& byte_column(chunk)[3 * k + 1] == hex_digit(chunk[k] as nat % 16)
            &&& byte_column(chunk)[3 * k + 2] == ' '
        } by {
            if k < front.len() {
                assert(front[k] == chunk[k]);
            }
        }
    }
}

/// The offset column of a line at an offset below 16^8 is eight digits wide.
proof fn lemma_offset_width(off: nat)
    requires
        off < 0x1_0000_0000,
    ensures
        hex_padded(off, 8).len() == 8,
{
    reveal_with_fuel(pow16, 9);
    assert(pow16(8) == 0x1_0000_0000);
    lemma_hex_len_scaled(off, 8);
}

/// Where things stand in one line: the hex digits of byte `k` at `10 + 3k` and `11 + 3k`, its
/// text at `60 + k`, and the bars at 59 and at `60 + n` for `n` bytes.
pub proof fn lemma_dump_line_layout(off: nat, chunk: Seq<u8>)
    requires
        off < 0x1_0000_0000,
        chunk.len() <= 16,
    ensures
        dump_line(off, chunk).len() == 62 + chunk.len(),
        dump_line(off, chunk)[59] == '|',
        dump_line(off, chunk)[60 + chunk.len() as int] == '|',
        forall|k: int| 0 <= k < chunk.len() ==> {
            &&& dump_line(off, chunk)[10 + 3 * k] == hex_digit(#[trigger] chunk[k] as nat / 16)
            &&& dump_line(off, chunk)[11 + 3 * k] == hex_digit(chunk[k] as nat % 16)
            &&& dump_line(off, chunk)[60 + k] == shown_char(chunk[k])
        },
{
    lemma_offset_width(off);
    lemma_byte_column(chunk);
    let a = hex_padded(off, 8) + seq![' ', ' '];
    let col = byte_column(chunk);
    let pad = Seq::new((3 * (16 - chunk.len())) as nat, |i: int| ' ');
    let text = chunk.map_values(|b: u8| shown_char(b));
    let line = dump_line(off, chunk);
    assert(line == a + col + pad + seq![' ', '|'] + text + seq!['|', '\n']);
    assert((a + col + pad).len() == 58);
    assert forall|k: int| 0 <= k < chunk.len() implies {
        &&& dump_line(off, chunk)[10 + 3 * k] == hex_digit(#[trigger] chunk[k] as nat / 16)
        &&& dump_line(off, chunk)[11 + 3 * k] == hex_digit(chunk[k] as nat % 16)
        &&& dump_line(off, chunk)[60 + k] == shown_char(chunk[k])
    } by {
        assert(line[10 + 3 * k] == col[3 * k]);
        assert(line[11 + 3 * k] == col[3 * k + 1]);
        assert(line[60 + k] == text[k]);
    }
}

/// The `i`-th line of the dump of `rest` starts at `78 * i` (every line before it is full) and
/// is the line of the `i`-th group of sixteen bytes.
pub proof fn lemma_dump_lines_at(rest: Seq<u8>, off: nat, i: int, p: int)
    requires
        0 <= i,
        16 * i < rest.len(),
        off + rest.len() <= 0x1_0000_0000,
        0 <= p < 62 + (if rest.len() - 16 * i < 16 { rest.len() - 16 * i } else { 16 }),
    ensures
        78 * i + p < dump_lines(rest, off).len(),
        dump_lines(rest, off)[78 * i + p] == dump_line(
            (off + 16 * i) as nat,
            rest.skip(16 * i).take(if rest.len() - 16 * i < 16 { rest.len() - 16 * i } else { 16 }),
        )[p],
    decreases i,
{
    if i == 0 {
        assert(rest.skip(0) =~= rest);
        if rest.len() <= 16 {
            assert(rest.take(rest.len() as int) =~= rest);
            lemma_dump_line_layout(off, rest);
        } else {
            lemma_dump_line_layout(off, rest.take(16));
            assert(dump_lines(rest, off) == dump_line(off, rest.take(16)) + dump_lines(rest.skip(16), off + 16));
        }
    } else {
        assert(rest.len() > 16);
        lemma_dump_line_layout(off, rest.take(16));
        lemma_dump_lines_at(rest.skip(16), off + 16, i - 1, p);
        assert(rest.skip(16).skip(16 * (i - 1)) =~= rest.skip(16 * i));
        assert(dump_lines(rest, off) == dump_line(off, rest.take(16)) + dump_lines(rest.skip(16), off + 16));
        assert(78 * i + p == 78 + (78 * (i - 1) + p));
    }
}

} // verus!
