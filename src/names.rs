//! File names used on a managed volume: link names, imported track names and
//! the suffix rules that tell them apart.
use vstd::prelude::*;
use vstd::string::*;

verus! {

/// Relies on `String::push`: appends one character.
#[verifier::external_body]
pub(crate) fn push_char(s: &mut String, c: char)
    ensures
        final(s)@ == old(s)@.push(c),
{
    s.push(c)
}

/// The character of a decimal digit.
pub open spec fn digit_char(d: nat) -> char {
    if d == 0 { '0' }
    else if d == 1 { '1' }
    else if d == 2 { '2' }
    else if d == 3 { '3' }
    else if d == 4 { '4' }
    else if d == 5 { '5' }
    else if d == 6 { '6' }
    else if d == 7 { '7' }
    else if d == 8 { '8' }
    else { '9' }
}

/// Decimal representation of `n`, without leading zeros.
pub open spec fn decimal(n: nat) -> Seq<char>
    decreases n,
{
    if n < 10 {
        seq![digit_char(n)]
    } else {
        decimal(n / 10).push(digit_char(n % 10))
    }
}

/// Name of the link at play position `j`: `<j>.mp3`.
pub open spec fn link_name_spec(j: nat) -> Seq<char> {
    decimal(j) + seq!['.', 'm', 'p', '3']
}

fn push_decimal(s: &mut String, n: usize)
    ensures
        final(s)@ == old(s)@ + decimal(n as nat),
    decreases n,
{
    if n >= 10 {
        push_decimal(s, n / 10);
    }
    let d = n % 10;
    let c = if d == 0 { '0' }
        else if d == 1 { '1' }
        else if d == 2 { '2' }
        else if d == 3 { '3' }
        else if d == 4 { '4' }
        else if d == 5 { '5' }
        else if d == 6 { '6' }
        else if d == 7 { '7' }
        else if d == 8 { '8' }
        else { '9' };
    push_char(s, c);
    assert(s@ == old(s)@ + decimal(n as nat));
}

/// The name of the link at play position `j`.
pub fn link_name(j: usize) -> (r: String)
    ensures
        r@ == link_name_spec(j as nat),
{
    let mut s = String::new();
    push_decimal(&mut s, j);
    push_char(&mut s, '.');
    push_char(&mut s, 'm');
    push_char(&mut s, 'p');
    push_char(&mut s, '3');
    assert(s@ == link_name_spec(j as nat));
    s
}


/// `decimal` is injective, so distinct play positions get distinct link names.
pub proof fn lemma_decimal_injective(a: nat, b: nat)
    requires
        decimal(a) == decimal(b),
    ensures
        a == b,
    decreases a,
{
    if a < 10 && b < 10 {
        assert(decimal(a)[0] == digit_char(a));
    } else if a < 10 {
        assert(decimal(b).len() >= 2) by { lemma_decimal_len(b / 10); }
    } else if b < 10 {
        assert(decimal(a).len() >= 2) by { lemma_decimal_len(a / 10); }
    } else {
        let da = decimal(a);
        let db = decimal(b);
        assert(da.last() == digit_char(a % 10));
        assert(db.last() == digit_char(b % 10));
        assert(da.drop_last() == decimal(a / 10));
        assert(db.drop_last() == decimal(b / 10));
        lemma_decimal_injective(a / 10, b / 10);
    }
}

proof fn lemma_decimal_len(n: nat)
    ensures
        decimal(n).len() >= 1,
    decreases n,
{
    if n >= 10 {
        lemma_decimal_len(n / 10);
    }
}

/// Distinct play positions have distinct link names.
pub proof fn lemma_link_names_distinct(a: nat, b: nat)
    requires
        a != b,
    ensures
        link_name_spec(a) != link_name_spec(b),
{
    if link_name_spec(a) == link_name_spec(b) {
        let sa = link_name_spec(a);
        lemma_decimal_len(a);
        lemma_decimal_len(b);
        assert(decimal(a) == sa.subrange(0, sa.len() - 4));
        assert(decimal(b) == sa.subrange(0, sa.len() - 4));
        lemma_decimal_injective(a, b);
    }
}

/// A character that fits in seven bits.
pub open spec fn is_ascii_char(c: char) -> bool {
    (c as u32) < 128
}

/// The ASCII characters of `s`, in order.
pub open spec fn ascii_only(s: Seq<char>) -> Seq<char> {
    s.filter(|c: char| is_ascii_char(c))
}

/// Suffix that hides an imported original from the player.
pub open spec fn music_ext() -> Seq<char> {
    seq!['.', 'x']
}

/// Name under which a source file called `file_name` is stored in the music
/// directory: its ASCII characters followed by `.x`.
pub open spec fn import_name_spec(file_name: Seq<char>) -> Seq<char> {
    ascii_only(file_name) + music_ext()
}

/// The name given to an imported copy of the file `file_name`.
pub fn import_name(file_name: &str) -> (r: String)
    ensures
        r@ == import_name_spec(file_name@),
{
    let mut s = String::new();
    let n = file_name.unicode_len();
    let mut i: usize = 0;
    while i < n
        invariant
            n == file_name@.len(),
            i <= n,
            s@ == ascii_only(file_name@.take(i as int)),
        decreases n - i,
    {
        let c = file_name.get_char(i);
        proof {
            let pred = |c: char| is_ascii_char(c);
            assert(file_name@.take(i + 1) == file_name@.take(i as int).push(c));
            file_name@.take(i as int).lemma_filter_push(c, pred);
        }
        if (c as u32) < 128 {
            push_char(&mut s, c);
        }
        i = i + 1;
    }
    assert(file_name@.take(n as int) == file_name@);
    push_char(&mut s, '.');
    push_char(&mut s, 'x');
    s
}

/// `s` ends with `suffix`.
pub open spec fn ends_with(s: Seq<char>, suffix: Seq<char>) -> bool {
    s.len() >= suffix.len() && s.subrange(s.len() - suffix.len(), s.len() as int) == suffix
}

/// Suffix of an imported MP3 track in the music directory.
pub open spec fn track_suffix() -> Seq<char> {
    seq!['.', 'm', 'p', '3', '.', 'x']
}

fn str_ends_with(s: &str, suffix: &str) -> (r: bool)
    ensures
        r == ends_with(s@, suffix@),
{
    let n = s.unicode_len();
    let m = suffix.unicode_len();
    if n < m {
        return false;
    }
    let mut i: usize = 0;
    while i < m
        invariant
            n == s@.len(),
            m == suffix@.len(),
            m <= n,
            i <= m,
            forall|k: int| 0 <= k < i ==> s@[n - m + k] == suffix@[k],
        decreases m - i,
    {
        if s.get_char(n - m + i) != suffix.get_char(i) {
            assert(s@.subrange(n - m, n as int)[i as int] != suffix@[i as int]);
            return false;
        }
        i = i + 1;
    }
    assert(s@.subrange(n - m, n as int) == suffix@);
    true
}

/// Whether a name in the music directory is an imported track (it ends with
/// `.mp3.x`).
pub fn is_track_name(name: &str) -> (r: bool)
    ensures
        r == ends_with(name@, track_suffix()),
{
    let suffix = ".mp3.x";
    proof { reveal_strlit(".mp3.x"); }
    assert(suffix@ == track_suffix());
    str_ends_with(name, suffix)
}

/// The file name has the extension `mp3`, exactly as a path reports it: the
/// part after the last dot, where a dot at the start of the name does not
/// begin an extension.
pub open spec fn has_mp3_extension_spec(file_name: Seq<char>) -> bool {
    file_name.len() > 4 && ends_with(file_name, seq!['.', 'm', 'p', '3'])
}

/// Whether a source file is picked up for import.
pub fn has_mp3_extension(file_name: &str) -> (r: bool)
    ensures
        r == has_mp3_extension_spec(file_name@),
{
    let suffix = ".mp3";
    proof { reveal_strlit(".mp3"); }
    assert(suffix@ == seq!['.', 'm', 'p', '3']);
    file_name.unicode_len() > 4 && str_ends_with(file_name, suffix)
}

} // verus!
