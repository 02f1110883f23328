//! Names of segment data files: the segment's UUID in its hyphenated lower-case
//! form, and `.dat`.

use crate::text::chars_of;
use crate::types::SegmentId;
use vstd::prelude::*;
use vstd::string::*;

verus! {

/// The hexadecimal digit `d` as a character.
pub open spec fn hex_char(d: nat) -> char {
    if d < 10 {
        (('0' as u32) + d) as char
    } else {
        (('a' as u32) + (d - 10)) as char
    }
}

/// The number that a lower-case hexadecimal digit stands for.
pub open spec fn hex_digit(c: char) -> Option<nat> {
    if '0' <= c <= '9' {
        Some(((c as u32) - ('0' as u32)) as nat)
    } else if 'a' <= c <= 'f' {
        Some(((c as u32) - ('a' as u32) + 10) as nat)
    } else {
        None
    }
}

/// The last `width` hexadecimal digits of `n`.
pub open spec fn hex(n: nat, width: nat) -> Seq<char>
    decreases width,
{
    if width == 0 {
        Seq::empty()
    } else {
        hex(n / 16, (width - 1) as nat).push(hex_char(n % 16))
    }
}

/// The number that hexadecimal digits stand for; `None` when another character
/// occurs.
pub open spec fn hex_value(s: Seq<char>) -> Option<nat>
    decreases s.len(),
{
    if s.len() == 0 {
        Some(0)
    } else {
        match (hex_value(s.drop_last()), hex_digit(s.last())) {
            (Some(v), Some(d)) => Some(v * 16 + d),
            _ => None,
        }
    }
}

/// A segment's UUID in text.
pub open spec fn uuid_text(id: SegmentId) -> Seq<char> {
    let b = id.bits as nat;
    hex(b / 0x1_0000_0000_0000_0000_0000_0000, 8) + seq!['-'] + hex(
        b / 0x1_0000_0000_0000_0000_0000 % 0x1_0000,
        4,
    ) + seq!['-'] + hex(b / 0x1_0000_0000_0000_0000 % 0x1_0000, 4) + seq!['-'] + hex(
        b / 0x1_0000_0000_0000 % 0x1_0000,
        4,
    ) + seq!['-'] + hex(b % 0x1_0000_0000_0000, 12)
}

/// The suffix of data files.
pub open spec fn dat_suffix() -> Seq<char> {
    seq!['.', 'd', 'a', 't']
}

/// The name of a segment's data file.
pub open spec fn dat_name(id: SegmentId) -> Seq<char> {
    uuid_text(id) + dat_suffix()
}

/// The name ends as data files do.
pub open spec fn has_dat_suffix(name: Seq<char>) -> bool {
    name.len() >= 4 && name.skip(name.len() - 4) == dat_suffix()
}

fn hex_digit_text(d: u128) -> (text: &'static str)
    requires
        d < 16,
    ensures
        text@ == seq![hex_char(d as nat)],
{
    proof {
        reveal_strlit("0");
        reveal_strlit("1");
        reveal_strlit("2");
        reveal_strlit("3");
        reveal_strlit("4");
        reveal_strlit("5");
        reveal_strlit("6");
        reveal_strlit("7");
        reveal_strlit("8");
        reveal_strlit("9");
        reveal_strlit("a");
        reveal_strlit("b");
        reveal_strlit("c");
        reveal_strlit("d");
        reveal_strlit("e");
        reveal_strlit("f");
    }
    let text = match d {
        0 => "0",
        1 => "1",
        2 => "2",
        3 => "3",
        4 => "4",
        5 => "5",
        6 => "6",
        7 => "7",
        8 => "8",
        9 => "9",
        10 => "a",
        11 => "b",
        12 => "c",
        13 => "d",
        14 => "e",
        _ => "f",
    };
    assert(text@ =~= seq![hex_char(d as nat)]);
    text
}

fn push_hex(out: &mut String, n: u128, width: usize)
    ensures
        final(out)@ == old(out)@ + hex(n as nat, width as nat),
    decreases width,
{
    if width > 0 {
        push_hex(out, n / 16, width - 1);
        out.append(hex_digit_text(n % 16));
    }
    assert(out@ =~= old(out)@ + hex(n as nat, width as nat));
}

/// Appends a segment's UUID in text.
pub(crate) fn push_uuid(name: &mut String, id: SegmentId)
    ensures
        final(name)@ == old(name)@ + uuid_text(id),
{
    proof {
        reveal_strlit("-");
    }
    let b: u128 = id.bits;
    push_hex(name, b / 0x1_0000_0000_0000_0000_0000_0000, 8);
    name.append("-");
    push_hex(name, b / 0x1_0000_0000_0000_0000_0000 % 0x1_0000, 4);
    name.append("-");
    push_hex(name, b / 0x1_0000_0000_0000_0000 % 0x1_0000, 4);
    name.append("-");
    push_hex(name, b / 0x1_0000_0000_0000 % 0x1_0000, 4);
    name.append("-");
    push_hex(name, b % 0x1_0000_0000_0000, 12);
    assert(name@ =~= old(name)@ + uuid_text(id));
}

/// The name of a segment's data file.
pub fn dat_file_name(id: SegmentId) -> (name: String)
    ensures
        name@ == dat_name(id),
{
    proof {
        reveal_strlit(".dat");
    }
    let mut name: String = String::new();
    push_uuid(&mut name, id);
    name.append(".dat");
    assert(name@ =~= dat_name(id));
    name
}

/// Whether a file name is that of a data file.
pub fn is_dat_name(name: &str) -> (r: bool)
    ensures
        r == has_dat_suffix(name@),
{
    let chars = chars_of(name);
    let n: usize = chars.len();
    if n < 4 {
        return false;
    }
    let ghost tail = name@.skip(n - 4);
    let r = chars[n - 4] == '.' && chars[n - 3] == 'd' && chars[n - 2] == 'a' && chars[n - 1] == 't';
    proof {
        assert(tail[0] == name@[n - 4] && tail[1] == name@[n - 3] && tail[2] == name@[n - 2]
            && tail[3] == name@[n - 1]);
        if r {
            assert(tail =~= dat_suffix());
        }
    }
    r
}

/// The data files among the names of a directory, in order.
pub fn list_segment_files(names: &Vec<String>) -> (files: Vec<usize>)
    ensures
        forall|i: int, j: int|
            0 <= i < j < files@.len() ==> #[trigger] files@[i] < #[trigger] files@[j],
        forall|i: int|
            0 <= i < files@.len() ==> (#[trigger] files@[i]) < names@.len() && has_dat_suffix(
                names@[files@[i] as int]@,
            ),
        forall|k: usize|
            k < names@.len() && has_dat_suffix(names@[k as int]@) ==> #[trigger] files@.contains(k),
{
    let n: usize = names.len();
    let mut files: Vec<usize> = Vec::new();
    let mut k: usize = 0;
    while k < n
        invariant
            k <= n == names@.len(),
            forall|i: int, j: int|
                0 <= i < j < files@.len() ==> #[trigger] files@[i] < #[trigger] files@[j],
            forall|i: int|
                0 <= i < files@.len() ==> (#[trigger] files@[i]) < k && has_dat_suffix(
                    names@[files@[i] as int]@,
                ),
            forall|x: usize|
                x < k && has_dat_suffix(names@[x as int]@) ==> #[trigger] files@.contains(x),
        decreases n - k,
    {
        if is_dat_name(names[k].as_str()) {
            let ghost were = files@;
            files.push(k);
            proof {
                assert(files@[were.len() as int] == k);
                assert forall|x: usize| x < k && has_dat_suffix(
                    names@[x as int]@,
                ) implies #[trigger] files@.contains(x) by {
                    assert(were.contains(x));
                    let i = choose|i: int| 0 <= i < were.len() && were[i] == x;
                    assert(files@[i] == x);
                }
            }
        }
        k = k + 1;
    }
    files
}

/// Reads `chars[from..to]` as hexadecimal digits.
fn hex_at(chars: &Vec<char>, from: usize, to: usize) -> (n: Option<u128>)
    requires
        from <= to <= chars@.len(),
        to - from <= 12,
    ensures
        match n {
            Some(v) => hex_value(chars@.subrange(from as int, to as int)) == Some(v as nat) && v
                < 0x1_0000_0000_0000,
            None => hex_value(chars@.subrange(from as int, to as int)) is None,
        },
{
    let ghost text = chars@.subrange(from as int, to as int);
    let mut value: u128 = 0;
    let mut bound: u128 = 1;
    let mut i: usize = from;
    assert(text.take(0) =~= Seq::empty());
    proof {
        lemma_pow16_bound((to - from) as nat);
    }
    while i < to
        invariant
            from <= i <= to <= chars@.len(),
            to - from <= 12,
            text == chars@.subrange(from as int, to as int),
            hex_value(text.take(i - from)) == Some(value as nat),
            value < bound,
            bound * pow16((to - i) as nat) == pow16((to - from) as nat),
            pow16((to - from) as nat) <= 0x1_0000_0000_0000,
        decreases to - i,
    {
        let c: char = chars[i];
        let ghost upto = text.take(i - from + 1);
        proof {
            assert(upto.drop_last() =~= text.take(i - from));
            assert(upto.last() == c);
            lemma_pow16_positive((to - i - 1) as nat);
            let p = pow16((to - i - 1) as nat);
            assert(bound * (16 * p) == (bound * 16) * p && bound * 16 <= (bound * 16) * p)
                by (nonlinear_arith)
                requires
                    p >= 1,
                    bound >= 0,
            ;
        }
        let d: u32 = if '0' <= c && c <= '9' {
            c as u32 - '0' as u32
        } else if 'a' <= c && c <= 'f' {
            c as u32 - 'a' as u32 + 10
        } else {
            proof {
                lemma_hex_prefix(text, i - from + 1);
            }
            return None;
        };
        value = value * 16 + d as u128;
        bound = bound * 16;
        i = i + 1;
    }
    assert(text.take(to - from) =~= text);
    assert(bound * pow16(0) == bound) by (nonlinear_arith)
        requires
            pow16(0) == 1,
    ;
    Some(value)
}

/// Sixteen to the power `n`.
pub open spec fn pow16(n: nat) -> nat
    decreases n,
{
    if n == 0 {
        1
    } else {
        16 * pow16((n - 1) as nat)
    }
}

proof fn lemma_pow16_positive(n: nat)
    ensures
        pow16(n) >= 1,
    decreases n,
{
    if n > 0 {
        lemma_pow16_positive((n - 1) as nat);
    }
}

proof fn lemma_pow16_bound(n: nat)
    requires
        n <= 12,
    ensures
        pow16(n) <= 0x1_0000_0000_0000,
{
    reveal_with_fuel(pow16, 13);
}

proof fn lemma_hex_prefix(s: Seq<char>, k: int)
    requires
        0 <= k <= s.len(),
        hex_value(s.take(k)) is None,
    ensures
        hex_value(s) is None,
    decreases s.len() - k,
{
    if k < s.len() {
        assert(s.take(k + 1).drop_last() =~= s.take(k));
        lemma_hex_prefix(s, k + 1);
    } else {
        assert(s.take(k) =~= s);
    }
}

/// Hexadecimal digits read back as the number they were written from.
proof fn lemma_hex_round_trip(n: nat, width: nat)
    requires
        n < pow16(width),
    ensures
        hex(n, width).len() == width,
        hex_value(hex(n, width)) == Some(n),
    decreases width,
{
    if width > 0 {
        let s = hex(n, width);
        assert(n / 16 < pow16((width - 1) as nat));
        lemma_hex_round_trip(n / 16, (width - 1) as nat);
        assert(s.drop_last() =~= hex(n / 16, (width - 1) as nat));
    }
}

/// The fields of a name and what they stand for.
proof fn lemma_name_fields(id: SegmentId)
    ensures
        dat_name(id).len() == 40,
        hex_value(dat_name(id).subrange(0, 8)) == Some(
            id.bits as nat / 0x1_0000_0000_0000_0000_0000_0000,
        ),
        hex_value(dat_name(id).subrange(9, 13)) == Some(
            id.bits as nat / 0x1_0000_0000_0000_0000_0000 % 0x1_0000,
        ),
        hex_value(dat_name(id).subrange(14, 18)) == Some(
            id.bits as nat / 0x1_0000_0000_0000_0000 % 0x1_0000,
        ),
        hex_value(dat_name(id).subrange(19, 23)) == Some(
            id.bits as nat / 0x1_0000_0000_0000 % 0x1_0000,
        ),
        hex_value(dat_name(id).subrange(24, 36)) == Some(id.bits as nat % 0x1_0000_0000_0000),
{
    let b = id.bits as nat;
    let f1 = b / 0x1_0000_0000_0000_0000_0000_0000;
    let f2 = b / 0x1_0000_0000_0000_0000_0000 % 0x1_0000;
    let f3 = b / 0x1_0000_0000_0000_0000 % 0x1_0000;
    let f4 = b / 0x1_0000_0000_0000 % 0x1_0000;
    let f5 = b % 0x1_0000_0000_0000;
    reveal_with_fuel(pow16, 13);
    assert(b < 0x1_0000_0000_0000_0000_0000_0000_0000_0000);
    assert(f1 < 0x1_0000_0000);
    lemma_hex_round_trip(f1, 8);
    lemma_hex_round_trip(f2, 4);
    lemma_hex_round_trip(f3, 4);
    lemma_hex_round_trip(f4, 4);
    lemma_hex_round_trip(f5, 12);
    let name = dat_name(id);
    assert(name.subrange(0, 8) =~= hex(f1, 8));
    assert(name.subrange(9, 13) =~= hex(f2, 4));
    assert(name.subrange(14, 18) =~= hex(f3, 4));
    assert(name.subrange(19, 23) =~= hex(f4, 4));
    assert(name.subrange(24, 36) =~= hex(f5, 12));
}

/// No two segments share a data file.
pub proof fn law_dat_names_differ(a: SegmentId, b: SegmentId)
    requires
        dat_name(a) == dat_name(b),
    ensures
        a == b,
{
    lemma_name_fields(a);
    lemma_name_fields(b);
    lemma_fields(a.bits as nat);
    lemma_fields(b.bits as nat);
}

proof fn lemma_fields(b: nat)
    ensures
        b == (((b / 0x1_0000_0000_0000_0000_0000_0000 * 0x1_0000 + b
            / 0x1_0000_0000_0000_0000_0000 % 0x1_0000) * 0x1_0000 + b / 0x1_0000_0000_0000_0000
            % 0x1_0000) * 0x1_0000 + b / 0x1_0000_0000_0000 % 0x1_0000) * 0x1_0000_0000_0000 + b
            % 0x1_0000_0000_0000,
{
}

/// The segment that a data file belongs to; `None` when the name is not that of
/// a data file.
pub fn parse_dat_name(name: &str) -> (id: Option<SegmentId>)
    ensures
        match id {
            Some(id) => name@ == dat_name(id),
            None => forall|id: SegmentId| name@ != #[trigger] dat_name(id),
        },
{
    let chars = chars_of(name);
    proof {
        assert forall|id: SegmentId| chars@.len() != 40 implies name@ != #[trigger] dat_name(id) by {
            lemma_name_fields(id);
        }
    }
    if chars.len() != 40 {
        return None;
    }
    let fields = (
        hex_at(&chars, 0, 8),
        hex_at(&chars, 9, 13),
        hex_at(&chars, 14, 18),
        hex_at(&chars, 19, 23),
        hex_at(&chars, 24, 36),
    );
    match fields {
        (Some(f1), Some(f2), Some(f3), Some(f4), Some(f5)) => {
            if f1 >= 0x1_0000_0000 || f2 >= 0x1_0000 || f3 >= 0x1_0000 || f4 >= 0x1_0000 {
                proof {
                    assert forall|id: SegmentId| name@ != #[trigger] dat_name(id) by {
                        lemma_name_fields(id);
                    }
                }
                return None;
            }
            let bits: u128 = (((f1 * 0x1_0000 + f2) * 0x1_0000 + f3) * 0x1_0000 + f4)
                * 0x1_0000_0000_0000 + f5;
            let id = SegmentId { bits };
            proof {
                assert forall|other: SegmentId| name@ == #[trigger] dat_name(other) implies other
                    == id by {
                    lemma_name_fields(other);
                    lemma_fields(other.bits as nat);
                }
            }
            if same_chars(&chars, &chars_of(dat_file_name(id).as_str())) {
                Some(id)
            } else {
                None
            }
        },
        _ => {
            proof {
                assert forall|id: SegmentId| name@ != #[trigger] dat_name(id) by {
                    lemma_name_fields(id);
                }
            }
            None
        },
    }
}

fn same_chars(a: &Vec<char>, b: &Vec<char>) -> (same: bool)
    ensures
        same == (a@ == b@),
{
    let n: usize = a.len();
    if n != b.len() {
        return false;
    }
    let mut i: usize = 0;
    while i < n
        invariant
            i <= n == a@.len() == b@.len(),
            forall|j: int| 0 <= j < i ==> a@[j] == b@[j],
        decreases n - i,
    {
        if a[i] != b[i] {
            return false;
        }
        i = i + 1;
    }
    assert(a@ =~= b@);
    true
}

} // verus!
