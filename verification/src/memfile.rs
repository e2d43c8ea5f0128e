//! The image as the text of a memory initialization file.
//!
//! The file names the width of a word and the number of words, and then
//! lists the words by address. Words that repeat are listed once, as a run
//! with its first and last address. Addresses are written in hexadecimal
//! digits and words in binary digits.
//!
//! The runs are kept by the crate `mif`.

use vstd::prelude::*;
use vstd::string::StringExecFns;
use crate::listing::{ascii_text, chars, is_ascii};

verus! {

/// A memory initialization file of words of 16 bits or fewer, as the crate
/// `mif` holds it.
#[verifier::external_body]
pub struct MifFile {
    file: mif::Mif<u16>,
}

/// The runs that a memory initialization file holds, in order: each a word
/// and the number of times that it stands.
pub uninterp spec fn mif_runs(m: MifFile) -> Seq<(u16, usize)>;

/// The width in bits that a memory initialization file was made with.
pub uninterp spec fn mif_width(m: MifFile) -> usize;

/// The runs after one more word: the last run grows where it holds the
/// same word, and a run of one begins otherwise.
pub open spec fn pushed(runs: Seq<(u16, usize)>, word: u16) -> Seq<(u16, usize)> {
    if runs.len() > 0 && runs.last().0 == word {
        runs.update(runs.len() - 1, (word, (runs.last().1 + 1) as usize))
    } else {
        runs.push((word, 1usize))
    }
}

/// An empty file of the given width.
///
/// Calls `mif::Mif::new`, which accepts a width from 1 to the number of
/// bits of the word type, here 16, and gives a file without words.
#[verifier::external_body]
pub(crate) fn mif_new(width: usize) -> (r: Option<MifFile>)
    ensures
        r is Some <==> 1 <= width <= 16,
        r matches Some(m) ==> mif_runs(m) == Seq::<(u16, usize)>::empty() && mif_width(m) == width,
{
    match mif::Mif::new(width) {
        Ok(file) => Some(MifFile { file }),
        Err(_) => None,
    }
}

/// Appends one word.
///
/// Calls `mif::Mif::push` with a run of one. It adds one to the last run
/// where that holds the same word. Otherwise it starts a run of one if the
/// word fits the width, which every word does at width 16, and refuses the
/// word if not. A refused word leaves the file as it was. The file counts
/// its words, which are those of its runs, in a machine word: there must be
/// room for one more.
#[verifier::external_body]
pub(crate) fn mif_push(m: &mut MifFile, word: u16) -> (ok: bool)
    requires
        words_before(mif_runs(*old(m)), mif_runs(*old(m)).len() as int) < usize::MAX,
    ensures
        mif_width(*final(m)) == mif_width(*old(m)),
        ok ==> mif_runs(*final(m)) == pushed(mif_runs(*old(m)), word),
        !ok ==> mif_runs(*final(m)) == mif_runs(*old(m)),
        mif_width(*old(m)) == 16 ==> ok,
{
    m.file.push(word, 1).is_ok()
}

/// The runs of the file.
///
/// Calls `mif::Mif::words`, which hands out the runs that the file holds.
#[verifier::external_body]
pub(crate) fn mif_words(m: &MifFile) -> (runs: Vec<(u16, usize)>)
    ensures
        runs@ == mif_runs(*m),
{
    m.file.words().clone()
}

/// The runs of the first `n` words.
pub open spec fn runs_of(words: Seq<u16>, n: int) -> Seq<(u16, usize)>
    decreases n,
{
    if n <= 0 {
        Seq::empty()
    } else {
        pushed(runs_of(words, n - 1), words[n - 1])
    }
}

/// The number of words in the first `k` runs.
pub open spec fn words_before(runs: Seq<(u16, usize)>, k: int) -> int
    decreases k,
{
    if k <= 0 {
        0
    } else {
        words_before(runs, k - 1) + runs[k - 1].1
    }
}

/// The words of the first `k` runs, each word as often as its run is long.
pub open spec fn expand(runs: Seq<(u16, usize)>, k: int) -> Seq<u16>
    decreases k,
{
    if k <= 0 {
        Seq::empty()
    } else {
        expand(runs, k - 1) + Seq::new(runs[k - 1].1 as nat, |i: int| runs[k - 1].0)
    }
}

/// Runs that agree on their first `k` entries hold the same words there.
pub proof fn lemma_runs_agree(a: Seq<(u16, usize)>, b: Seq<(u16, usize)>, k: int)
    requires
        k <= a.len(),
        k <= b.len(),
        forall|i: int| 0 <= i < k ==> a[i] == b[i],
    ensures
        expand(a, k) == expand(b, k),
        words_before(a, k) == words_before(b, k),
    decreases k,
{
    if k > 0 {
        lemma_runs_agree(a, b, k - 1);
    }
}

/// The runs of the first `n` words hold just these words, in order. No run
/// is empty, and none is longer than `n`.
pub proof fn lemma_runs_of(words: Seq<u16>, n: int)
    requires
        0 <= n <= words.len(),
        n <= usize::MAX,
    ensures
        expand(runs_of(words, n), runs_of(words, n).len() as int) == words.take(n),
        words_before(runs_of(words, n), runs_of(words, n).len() as int) == n,
        forall|i: int|
            0 <= i < runs_of(words, n).len() ==> 1 <= (#[trigger] runs_of(words, n)[i]).1 <= n,
        runs_of(words, n).len() <= n,
    decreases n,
{
    if n > 0 {
        lemma_runs_of(words, n - 1);
        let before = runs_of(words, n - 1);
        let after = runs_of(words, n);
        let word = words[n - 1];
        let k = before.len() as int;
        if k > 0 && before.last().0 == word {
            lemma_runs_agree(before, after, k - 1);
            let bulk = before.last().1 as nat;
            assert(Seq::new(bulk + 1, |i: int| word) =~= Seq::new(bulk, |i: int| word).push(word));
            assert(expand(after, k) =~= expand(before, k).push(word));
        } else {
            lemma_runs_agree(before, after, k);
            assert(Seq::new(1, |i: int| word) =~= seq![word]);
            assert(expand(after, k + 1) =~= expand(before, k).push(word));
        }
        assert(words.take(n) =~= words.take(n - 1).push(word));
    } else {
        assert(words.take(n) =~= Seq::<u16>::empty());
    }
}

/// The character of a digit, in upper case from ten on.
pub open spec fn digit_char(d: nat) -> u8 {
    if d < 10 {
        ('0' as u8 + d) as u8
    } else {
        ('A' as u8 + d - 10) as u8
    }
}

/// The lowest `digits` digits of a number in a base, the highest first.
pub open spec fn padded(n: nat, digits: nat, base: nat) -> Seq<u8>
    decreases digits,
{
    if digits == 0 {
        Seq::empty()
    } else {
        padded(n / base, (digits - 1) as nat, base).push(digit_char(n % base))
    }
}

/// The number of digits that a number takes in a base: one at least.
pub open spec fn digits_of(n: nat, base: nat) -> nat
    decreases n,
{
    if n < base || base < 2 {
        1
    } else {
        proof {
            assert(n / base < n) by (nonlinear_arith)
                requires
                    n >= base,
                    base >= 2,
            ;
        }
        1 + digits_of(n / base, base)
    }
}

/// A number in a base, without leading zeros.
pub open spec fn numeral(n: nat, base: nat) -> Seq<u8> {
    padded(n, digits_of(n, base), base)
}

/// The number of hexadecimal digits of the addresses of a file of `depth`
/// words: as many as the last address takes.
pub open spec fn address_digits(depth: nat) -> nat {
    if depth == 0 {
        1
    } else {
        digits_of((depth - 1) as nat, 16)
    }
}

/// The first lines of a file: the width, the depth and the radices.
pub open spec fn header(width: nat, depth: nat) -> Seq<char> {
    "WIDTH="@ + chars(numeral(width, 10)) + ";\nDEPTH="@ + chars(numeral(depth, 10))
        + ";\n\nADDRESS_RADIX=HEX;\nDATA_RADIX=BIN;\n\nCONTENT BEGIN\n"@
}

/// The line of a run that begins at `address`: the address, or the first
/// and last address of a run of more than one word, and the word.
pub open spec fn run_line(address: nat, run: (u16, usize), pads: nat, width: nat) -> Seq<char> {
    if run.1 == 1 {
        "\t"@ + chars(padded(address, pads, 16)) + "  :   "@ + chars(
            padded(run.0 as nat, width, 2),
        ) + ";\n"@
    } else {
        "\t["@ + chars(padded(address, pads, 16)) + ".."@ + chars(
            padded((address + run.1 - 1) as nat, pads, 16),
        ) + "]  :   "@ + chars(padded(run.0 as nat, width, 2)) + ";\n"@
    }
}

/// The lines of the first `k` runs.
pub open spec fn run_lines(runs: Seq<(u16, usize)>, k: int, pads: nat, width: nat) -> Seq<char>
    decreases k,
{
    if k <= 0 {
        Seq::empty()
    } else {
        run_lines(runs, k - 1, pads, width) + run_line(
            words_before(runs, k - 1) as nat,
            runs[k - 1],
            pads,
            width,
        )
    }
}

/// The text of a file of words of `width` bits.
pub open spec fn file_text(width: nat, words: Seq<u16>) -> Seq<char> {
    let runs = runs_of(words, words.len() as int);
    header(width, words.len()) + run_lines(
        runs,
        runs.len() as int,
        address_digits(words.len()),
        width,
    ) + "END;\n"@
}

/// Every digit is an ASCII byte.
pub proof fn lemma_padded_is_ascii(n: nat, digits: nat, base: nat)
    requires
        2 <= base <= 16,
    ensures
        is_ascii(padded(n, digits, base)),
        padded(n, digits, base).len() == digits,
    decreases digits,
{
    if digits > 0 {
        lemma_padded_is_ascii(n / base, (digits - 1) as nat, base);
        assert(n % base < base) by (nonlinear_arith)
            requires
                base >= 2,
        ;
    }
}

/// The number of digits that a number takes in a base.
fn count_digits(n: usize, base: usize) -> (r: usize)
    requires
        2 <= base <= 16,
    ensures
        r == digits_of(n as nat, base as nat),
{
    let mut rest: usize = n;
    let mut count: usize = 1;
    while rest >= base
        invariant
            2 <= base <= 16,
            count + digits_of(rest as nat, base as nat) == 1 + digits_of(n as nat, base as nat),
            count + rest <= n + 1,
        decreases rest,
    {
        assert(rest / base < rest) by (nonlinear_arith)
            requires
                rest >= base,
                base >= 2,
        ;
        rest = rest / base;
        count += 1;
    }
    count
}

/// Appends the lowest `digits` digits of a number in a base.
fn push_padded(out: &mut Vec<u8>, n: usize, digits: usize, base: usize)
    requires
        2 <= base <= 16,
    ensures
        final(out)@ == old(out)@ + padded(n as nat, digits as nat, base as nat),
    decreases digits,
{
    if digits > 0 {
        push_padded(out, n / base, digits - 1, base);
        let d = (n % base) as u8;
        let digit = if d < 10 {
            '0' as u8 + d
        } else {
            'A' as u8 + (d - 10)
        };
        out.push(digit);
    }
    assert(out@ =~= old(out)@ + padded(n as nat, digits as nat, base as nat));
}

/// Appends the lowest `digits` digits of a number in a base to a text.
fn append_padded(text: &mut String, n: usize, digits: usize, base: usize)
    requires
        2 <= base <= 16,
    ensures
        final(text)@ == old(text)@ + chars(padded(n as nat, digits as nat, base as nat)),
{
    let mut out: Vec<u8> = Vec::new();
    push_padded(&mut out, n, digits, base);
    proof {
        lemma_padded_is_ascii(n as nat, digits as nat, base as nat);
        assert(out@ =~= padded(n as nat, digits as nat, base as nat));
    }
    let piece = ascii_text(out);
    text.append(piece.as_str());
}

/// Appends the line of a run that begins at `address`.
fn append_run(text: &mut String, address: usize, run: (u16, usize), pads: usize, width: usize)
    requires
        run.1 >= 1,
        address + run.1 <= usize::MAX,
    ensures
        final(text)@ == old(text)@ + run_line(address as nat, run, pads as nat, width as nat),
{
    let ghost head = text@;
    if run.1 == 1 {
        text.append("\t");
        append_padded(text, address, pads, 16);
        text.append("  :   ");
        append_padded(text, run.0 as usize, width, 2);
        text.append(";\n");
    } else {
        text.append("\t[");
        append_padded(text, address, pads, 16);
        text.append("..");
        append_padded(text, address + run.1 - 1, pads, 16);
        text.append("]  :   ");
        append_padded(text, run.0 as usize, width, 2);
        text.append(";\n");
    }
    assert(text@ =~= head + run_line(address as nat, run, pads as nat, width as nat));
}

/// The text of a memory initialization file of 16-bit words that holds the
/// given words.
pub fn render(words: &Vec<u16>) -> (text: String)
    ensures
        text@ == file_text(16, words@),
{
    let n = words.len();
    let mut file = mif_new(16).unwrap();
    let mut i: usize = 0;
    while i < n
        invariant
            i <= n,
            n == words@.len(),
            mif_width(file) == 16,
            mif_runs(file) == runs_of(words@, i as int),
        decreases n - i,
    {
        proof {
            lemma_runs_of(words@, i as int);
        }
        mif_push(&mut file, words[i]);
        i += 1;
    }
    let runs = mif_words(&file);
    proof {
        lemma_runs_of(words@, n as int);
    }
    let mut text = String::new();
    text.append("WIDTH=");
    append_padded(&mut text, 16, count_digits(16, 10), 10);
    text.append(";\nDEPTH=");
    append_padded(&mut text, n, count_digits(n, 10), 10);
    text.append(";\n\nADDRESS_RADIX=HEX;\nDATA_RADIX=BIN;\n\nCONTENT BEGIN\n");
    assert(text@ =~= header(16, n as nat));
    let pads = if n == 0 {
        1
    } else {
        count_digits(n - 1, 16)
    };
    let ghost head = text@;
    let mut address: usize = 0;
    let mut k: usize = 0;
    while k < runs.len()
        invariant
            k <= runs@.len(),
            runs@ == runs_of(words@, n as int),
            words_before(runs@, runs@.len() as int) == n,
            forall|j: int| 0 <= j < runs@.len() ==> 1 <= (#[trigger] runs@[j]).1 <= n,
            address == words_before(runs@, k as int),
            address <= n,
            text@ == head + run_lines(runs@, k as int, pads as nat, 16),
        decreases runs@.len() - k,
    {
        let run = runs[k];
        proof {
            lemma_words_up_to(runs@, k + 1, runs@.len() as int);
        }
        append_run(&mut text, address, run, pads, 16);
        assert(text@ =~= head + run_lines(runs@, k + 1, pads as nat, 16));
        address = address + run.1;
        k += 1;
    }
    text.append("END;\n");
    assert(text@ =~= file_text(16, words@));
    text
}

/// More runs hold no fewer words.
pub proof fn lemma_words_up_to(runs: Seq<(u16, usize)>, k: int, m: int)
    requires
        0 <= k <= m,
    ensures
        words_before(runs, k) <= words_before(runs, m),
    decreases m - k,
{
    if k < m {
        lemma_words_up_to(runs, k, m - 1);
    }
}

} // verus!
