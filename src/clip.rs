//! The ffmpeg command line that cuts a clip out of the source recording.
use vstd::prelude::*;
use crate::text::{append_decimal, decimal, digit_char};

verus! {

pub open spec fn pow10(k: nat) -> nat
    decreases k,
{
    if k == 0 { 1 } else { 10 * pow10((k - 1) as nat) }
}

/// The six fractional digits of `f` microseconds, trailing zeros dropped.
pub open spec fn fraction_digits(f: nat, k: nat) -> Seq<char>
    decreases k,
{
    if k == 0 {
        seq![]
    } else {
        fraction_digits(f, (k - 1) as nat).push(digit_char((f / pow10((6 - k) as nat)) % 10))
    }
}

pub open spec fn trim_zeros(s: Seq<char>) -> Seq<char>
    decreases s.len(),
{
    if s.len() > 0 && s.last() == '0' {
        trim_zeros(s.drop_last())
    } else {
        s
    }
}

pub open spec fn abs_nat(x: int) -> nat {
    if x < 0 { (-x) as nat } else { x as nat }
}

/// `us` microseconds written as seconds: sign, whole seconds, and the
/// fraction without trailing zeros ("1.5", "-0.25", "3").
pub open spec fn seconds_text(us: int) -> Seq<char> {
    let a = abs_nat(us);
    let sign: Seq<char> = if us < 0 { seq!['-'] } else { seq![] };
    let frac = trim_zeros(fraction_digits(a % 1_000_000, 6));
    sign + decimal(a / 1_000_000) + if frac.len() == 0 { seq![] } else { seq!['.'] + frac }
}

/// Inputs of the concat filter, `[0][1]..[n-1]`.
pub open spec fn filter_inputs(n: nat) -> Seq<char>
    decreases n,
{
    if n == 0 {
        seq![]
    } else {
        filter_inputs((n - 1) as nat) + seq!['['] + decimal((n - 1) as nat) + seq![']']
    }
}

/// The filter graph that joins `n` cut pieces.
pub open spec fn filter_text(n: nat) -> Seq<char> {
    filter_inputs(n) + "concat=n="@ + decimal(n) + ":v=1:a=1[out];[out]setpts=PTS-STARTPTS"@
}

pub open spec fn piece_args(input: Seq<char>, pairs: Seq<(i64, i64)>) -> Seq<Seq<char>>
    decreases pairs.len(),
{
    if pairs.len() == 0 {
        seq![]
    } else {
        let (start, duration) = pairs.last();
        piece_args(input, pairs.drop_last()) + seq![
            "-ss"@,
            seconds_text(start as int),
            "-t"@,
            seconds_text(duration as int),
            "-i"@,
            input,
        ]
    }
}

/// The ffmpeg arguments that cut each `(start, duration)` piece of `input`
/// (microseconds), join the pieces, and encode them (AV1, Opus) to `output`.
pub open spec fn clip_args(input: Seq<char>, output: Seq<char>, pairs: Seq<(i64, i64)>) -> Seq<
    Seq<char>,
> {
    seq!["-y"@, "-hide_banner"@, "-loglevel"@, "error"@] + piece_args(input, pairs) + seq![
        "-filter_complex"@,
        filter_text(pairs.len()),
        "-c:a"@,
        "libopus"@,
        "-b"@,
        "96000"@,
        "-c:v"@,
        "libsvtav1"@,
        "-crf"@,
        "23"@,
        output,
    ]
}

fn push_str(v: &mut Vec<String>, s: &str)
    ensures
        final(v)@.map_values(|a: String| a@) == old(v)@.map_values(|a: String| a@).push(s@),
{
    let ghost before = v@;
    v.push(String::from_str(s));
    assert(v@.map_values(|a: String| a@) =~= before.map_values(|a: String| a@).push(s@));
}

fn push_string(v: &mut Vec<String>, s: String)
    ensures
        final(v)@.map_values(|a: String| a@) == old(v)@.map_values(|a: String| a@).push(s@),
{
    let ghost before = v@;
    v.push(s);
    assert(v@.map_values(|a: String| a@) =~= before.map_values(|a: String| a@).push(s@));
}

/// `us` microseconds as seconds in decimal.
pub fn seconds_string(us: i64) -> (r: String)
    ensures
        r@ == seconds_text(us as int),
{
    proof {
        reveal_strlit("-");
        reveal_strlit(".");
    }
    let a: u64 = if us < 0 { (-(us as i128)) as u64 } else { us as u64 };
    let mut s = String::new();
    if us < 0 {
        s.append("-");
    }
    append_decimal(&mut s, a / 1_000_000);
    let f = a % 1_000_000;
    let ghost head = s@;
    let mut digits: Vec<u64> = Vec::new();
    let mut div: u64 = 100_000;
    let mut k: usize = 0;
    proof {
        assert(pow10(0) == 1);
        assert(pow10(1) == 10);
        assert(pow10(2) == 100);
        assert(pow10(3) == 1000);
        assert(pow10(4) == 10000);
        assert(pow10(5) == 100000);
    }
    while k < 6
        invariant
            k <= 6,
            f < 1_000_000,
            k < 6 ==> div as nat == pow10((5 - k) as nat),
            div >= 1,
            digits@.len() == k,
            digits@.map_values(|d: u64| digit_char(d as nat)) =~= fraction_digits(f as nat, k as nat),
            forall|i: int| 0 <= i < k ==> #[trigger] digits@[i] < 10,
        decreases 6 - k,
    {
        let ghost old_digits = digits@;
        digits.push((f / div) % 10);
        proof {
            assert(pow10(0) == 1);
            assert(pow10(1) == 10);
            assert(pow10(2) == 100);
            assert(pow10(3) == 1000);
            assert(pow10(4) == 10000);
        }
        assert(digits@.map_values(|d: u64| digit_char(d as nat)) =~= fraction_digits(
            f as nat,
            (k + 1) as nat,
        )) by {
            assert forall|i: int| 0 <= i < k implies digits@[i] == old_digits[i] by {}
        }
        if k < 5 {
            assert(pow10((5 - k) as nat) == 10 * pow10((4 - k) as nat));
            div = div / 10;
        }
        k = k + 1;
    }
    let ghost all = fraction_digits(f as nat, 6);
    let mut end: usize = 6;
    assert(all.subrange(0, 6) =~= all);
    while end > 0 && digits[end - 1] == 0
        invariant
            end <= 6,
            digits@.len() == 6,
            all =~= digits@.map_values(|d: u64| digit_char(d as nat)),
            forall|i: int| 0 <= i < 6 ==> #[trigger] digits@[i] < 10,
            trim_zeros(all) == trim_zeros(all.subrange(0, end as int)),
        decreases end,
    {
        assert(all.subrange(0, end as int).drop_last() =~= all.subrange(0, end - 1));
        end = end - 1;
    }
    let ghost frac = all.subrange(0, end as int);
    assert(end > 0 ==> digits@[end - 1] != 0);
    assert(end > 0 ==> frac.last() != '0') by {
        if end > 0 {
            assert(frac.last() == digit_char(digits@[end - 1] as nat));
        }
    }
    assert(trim_zeros(all) == frac);
    if end > 0 {
        s.append(".");
        let mut i: usize = 0;
        while i < end
            invariant
                i <= end <= 6,
                digits@.len() == 6,
                all =~= digits@.map_values(|d: u64| digit_char(d as nat)),
                forall|i: int| 0 <= i < 6 ==> #[trigger] digits@[i] < 10,
                s@ =~= head + seq!['.'] + all.subrange(0, i as int),
            decreases end - i,
        {
            append_decimal(&mut s, digits[i]);
            assert(decimal(digits@[i as int] as nat) =~= seq![digit_char(digits@[i as int] as nat)]);
            i = i + 1;
        }
    }
    s
}

/// The filter graph that joins `n` pieces.
fn filter_string(n: usize) -> (r: String)
    ensures
        r@ == filter_text(n as nat),
{
    proof {
        reveal_strlit("[");
        reveal_strlit("]");
    }
    let mut s = String::new();
    let mut i: usize = 0;
    assert(s@ =~= filter_inputs(0));
    while i < n
        invariant
            i <= n,
            s@ =~= filter_inputs(i as nat),
        decreases n - i,
    {
        let ghost prev = s@;
        s.append("[");
        append_decimal(&mut s, i as u64);
        s.append("]");
        proof {
            reveal_strlit("[");
            reveal_strlit("]");
        }
        assert("["@ =~= seq!['[']);
        assert("]"@ =~= seq![']']);
        assert(s@ =~= prev + seq!['['] + decimal(i as nat) + seq![']']);
        assert(filter_inputs((i + 1) as nat) == filter_inputs(i as nat) + seq!['['] + decimal(
            i as nat,
        ) + seq![']']);
        i = i + 1;
        assert(s@ =~= filter_inputs(i as nat));
    }
    s.append("concat=n=");
    append_decimal(&mut s, n as u64);
    s.append(":v=1:a=1[out];[out]setpts=PTS-STARTPTS");
    s
}

/// The ffmpeg arguments that cut each `(start, duration)` piece (in
/// microseconds) out of `input_file`, join them, and encode the result to
/// `output_file`.
pub fn clip_segments(input_file: &str, output_file: &str, pairs: &Vec<(i64, i64)>) -> (r: Vec<
    String,
>)
    ensures
        r@.map_values(|a: String| a@) == clip_args(input_file@, output_file@, pairs@),
{
    let mut args: Vec<String> = Vec::new();
    push_str(&mut args, "-y");
    push_str(&mut args, "-hide_banner");
    push_str(&mut args, "-loglevel");
    push_str(&mut args, "error");
    let ghost head = seq!["-y"@, "-hide_banner"@, "-loglevel"@, "error"@];
    assert(args@.map_values(|a: String| a@) =~= head);
    let mut i: usize = 0;
    while i < pairs.len()
        invariant
            i <= pairs@.len(),
            args@.map_values(|a: String| a@) =~= head + piece_args(
                input_file@,
                pairs@.subrange(0, i as int),
            ),
        decreases pairs@.len() - i,
    {
        let (start, duration) = pairs[i];
        push_str(&mut args, "-ss");
        push_string(&mut args, seconds_string(start));
        push_str(&mut args, "-t");
        push_string(&mut args, seconds_string(duration));
        push_str(&mut args, "-i");
        push_str(&mut args, input_file);
        assert(pairs@.subrange(0, i + 1).drop_last() =~= pairs@.subrange(0, i as int));
        i = i + 1;
    }
    assert(pairs@.subrange(0, pairs@.len() as int) =~= pairs@);
    push_str(&mut args, "-filter_complex");
    push_string(&mut args, filter_string(pairs.len()));
    push_str(&mut args, "-c:a");
    push_str(&mut args, "libopus");
    push_str(&mut args, "-b");
    push_str(&mut args, "96000");
    push_str(&mut args, "-c:v");
    push_str(&mut args, "libsvtav1");
    push_str(&mut args, "-crf");
    push_str(&mut args, "23");
    push_str(&mut args, output_file);
    args
}

} // verus!
