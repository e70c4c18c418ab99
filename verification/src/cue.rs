//! Cue sheets: one track per chapter.

use crate::mpeg_util::{Chapter, ChapterInfo};
use vstd::prelude::*;
use vstd::string::StringExecFns;

verus! {

/// The character of a decimal digit.
pub open spec fn digit_char(d: int) -> char {
    ((0x30 + d) as u8) as char
}

/// `n` in decimal, no leading zero.
pub open spec fn spec_decimal(n: nat) -> Seq<char>
    decreases n,
{
    if n < 10 {
        seq![digit_char(n as int)]
    } else {
        spec_decimal(n / 10).push(digit_char((n % 10) as int))
    }
}

/// `n` in decimal with at least two digits.
pub open spec fn spec_two_digits(n: nat) -> Seq<char> {
    if n < 10 {
        seq!['0'] + spec_decimal(n)
    } else {
        spec_decimal(n)
    }
}

/// The three lines of the track with the number `number`.
pub open spec fn spec_track(number: nat, chapter: Chapter) -> Seq<char> {
    "  TRACK "@ + spec_two_digits(number) + " AUDIO\n"@ + "    TITLE \""@ + chapter.title@
        + "\"\n"@ + "    INDEX 01 "@ + spec_two_digits((chapter.start_time.seconds / 60) as nat)
        + ":"@ + spec_two_digits((chapter.start_time.seconds % 60) as nat) + ":"@
        + spec_two_digits(chapter.start_time.frames as nat) + "\n"@
}

/// The tracks of the first `n` chapters, numbered from one.
pub open spec fn spec_tracks(chapters: Seq<Chapter>, n: nat) -> Seq<char>
    decreases n,
{
    if n == 0 || n > chapters.len() {
        Seq::empty()
    } else {
        spec_tracks(chapters, (n - 1) as nat) + spec_track(n, chapters[n - 1])
    }
}

/// The cue sheet of the MP3 file `file_name` with the chapters `chapters`.
pub open spec fn spec_cue_sheet(file_name: Seq<char>, chapters: Seq<Chapter>) -> Seq<char> {
    "FILE \""@ + file_name + "\" MP3\n"@ + spec_tracks(chapters, chapters.len())
}

/// The text of one decimal digit.
fn digit_str(d: u64) -> (r: &'static str)
    requires
        d < 10,
    ensures
        r@ == seq![digit_char(d as int)],
{
    proof {
        reveal_strlit("0");
        reveal_strlit("1");
        reveal_strlit("2");
        reveal_strlit("3");
        reveal_strlit("4");
        reveal_strlit("5");
        reveal_strlit("6");
        reveal_strlit("7");
        reveal_strlit("8");
        reveal_strlit("9");
    }
    let r = match d {
        0 => "0",
        1 => "1",
        2 => "2",
        3 => "3",
        4 => "4",
        5 => "5",
        6 => "6",
        7 => "7",
        8 => "8",
        _ => "9",
    };
    assert(r@ =~= seq![digit_char(d as int)]);
    r
}

/// Appends `n` in decimal to `out`.
pub fn push_decimal(out: &mut String, n: u64)
    ensures
        final(out)@ == old(out)@ + spec_decimal(n as nat),
    decreases n,
{
    if n >= 10 {
        push_decimal(out, n / 10);
    }
    out.append(digit_str(n % 10));
    proof {
        let digit = seq![digit_char((n % 10) as int)];
        if n >= 10 {
            assert(spec_decimal(n as nat) =~= spec_decimal((n / 10) as nat) + digit);
            assert(final(out)@ =~= old(out)@ + (spec_decimal((n / 10) as nat) + digit));
        }
    }
}

/// Appends `n` in decimal with at least two digits to `out`.
pub fn push_two_digits(out: &mut String, n: u64)
    ensures
        final(out)@ == old(out)@ + spec_two_digits(n as nat),
{
    if n < 10 {
        proof {
            reveal_strlit("0");
        }
        out.append("0");
        assert("0"@ =~= seq!['0']);
    }
    push_decimal(out, n);
    assert(final(out)@ =~= old(out)@ + spec_two_digits(n as nat));
}

/// Appends the three lines of the track with the number `number`.
fn push_track(out: &mut String, number: u64, chapter: &Chapter)
    ensures
        final(out)@ == old(out)@ + spec_track(number as nat, *chapter),
{
    out.append("  TRACK ");
    push_two_digits(out, number);
    out.append(" AUDIO\n");
    out.append("    TITLE \"");
    out.append(chapter.title.as_str());
    out.append("\"\n");
    out.append("    INDEX 01 ");
    push_two_digits(out, chapter.start_time.seconds / 60);
    out.append(":");
    push_two_digits(out, chapter.start_time.seconds % 60);
    out.append(":");
    push_two_digits(out, chapter.start_time.frames);
    out.append("\n");
    assert(final(out)@ =~= old(out)@ + spec_track(number as nat, *chapter));
}

/// Writes the cue sheet of the MP3 file `file_name`: the file line, then
/// for each chapter a track with its title and its start in minutes,
/// seconds and frames.
pub fn create_cue_sheet(file_name: &str, chapters: &ChapterInfo) -> (cue_sheet: String)
    ensures
        cue_sheet@ == spec_cue_sheet(file_name@, chapters.chapters@),
{
    let mut cue_sheet = String::new();
    cue_sheet.append("FILE \"");
    cue_sheet.append(file_name);
    cue_sheet.append("\" MP3\n");
    let ghost head = cue_sheet@;
    assert(head =~= "FILE \""@ + file_name@ + "\" MP3\n"@);
    let n: usize = chapters.chapters.len();
    let mut i: usize = 0;
    assert(head + spec_tracks(chapters.chapters@, 0) =~= head);
    while i < n
        invariant
            i <= n,
            n == chapters.chapters@.len(),
            cue_sheet@ == head + spec_tracks(chapters.chapters@, i as nat),
        decreases n - i,
    {
        let ghost before = cue_sheet@;
        push_track(&mut cue_sheet, i as u64 + 1, &chapters.chapters[i]);
        i += 1;
        assert(cue_sheet@ =~= head + spec_tracks(chapters.chapters@, i as nat));
    }
    cue_sheet
}

} // verus!
