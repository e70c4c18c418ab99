//! How a book is cut into one MP3 file per chapter.

use crate::cue::{push_two_digits, spec_two_digits};
use crate::mpeg_util::{ChapterInfo, ChapterTime};
use vstd::prelude::*;
use vstd::string::{StrSliceExecFns, StringExecFns};

verus! {

/// One output file: its name and the stretch of the book it holds. Without
/// an end it runs to the end of the book.
#[derive(Debug, Clone, PartialEq, Eq)]
pub struct Segment {
    pub file_name: String,
    pub start: ChapterTime,
    pub end: Option<ChapterTime>,
}

/// `title` with every slash replaced by an underscore.
pub open spec fn spec_safe_title(title: Seq<char>) -> Seq<char> {
    Seq::new(
        title.len(),
        |i: int|
            if title[i] == '/' {
                '_'
            } else {
                title[i]
            },
    )
}

/// The file name of the chapter with the number `number`: the number in
/// two digits, an underscore, the title made safe, `.mp3`.
pub open spec fn spec_chapter_file_name(number: nat, title: Seq<char>) -> Seq<char> {
    spec_two_digits(number) + "_"@ + spec_safe_title(title) + ".mp3"@
}

/// Whether `segment` is the file of the chapter at `index` of `chapters`:
/// it starts where the chapter starts and ends where the next one starts.
pub open spec fn is_segment_of(segment: Segment, chapters: Seq<crate::mpeg_util::Chapter>, index: int)
    -> bool {
    &&& segment.file_name@ == spec_chapter_file_name((index + 1) as nat, chapters[index].title@)
    &&& segment.start == chapters[index].start_time
    &&& segment.end == (if index + 1 < chapters.len() {
        Some(chapters[index + 1].start_time)
    } else {
        None
    })
}

/// Names the file of the chapter with the number `number`.
pub fn chapter_file_name(number: u64, title: &str) -> (r: String)
    ensures
        r@ == spec_chapter_file_name(number as nat, title@),
{
    let mut name = String::new();
    push_two_digits(&mut name, number);
    name.append("_");
    let ghost head = name@;
    assert(head =~= spec_two_digits(number as nat) + "_"@);
    let n: usize = title.unicode_len();
    let mut i: usize = 0;
    assert(head + spec_safe_title(title@).take(0) =~= head);
    while i < n
        invariant
            i <= n,
            n == title@.len(),
            name@ == head + spec_safe_title(title@).take(i as int),
        decreases n - i,
    {
        proof {
            reveal_strlit("_");
        }
        if title.get_char(i) == '/' {
            name.append("_");
        } else {
            name.append(title.substring_char(i, i + 1));
        }
        i += 1;
        assert(name@ =~= head + spec_safe_title(title@).take(i as int));
    }
    assert(spec_safe_title(title@).take(n as int) =~= spec_safe_title(title@));
    name.append(".mp3");
    name
}

/// Cuts the book into one file per chapter, in playing order.
pub fn chapter_segments(chapters: &ChapterInfo) -> (r: Vec<Segment>)
    ensures
        r@.len() == chapters.chapters@.len(),
        forall|i: int| 0 <= i < r@.len() ==> is_segment_of(#[trigger] r@[i], chapters.chapters@, i),
{
    let n: usize = chapters.chapters.len();
    let mut segments: Vec<Segment> = Vec::new();
    let mut i: usize = 0;
    while i < n
        invariant
            i <= n,
            n == chapters.chapters@.len(),
            segments@.len() == i,
            forall|j: int|
                0 <= j < i ==> is_segment_of(#[trigger] segments@[j], chapters.chapters@, j),
        decreases n - i,
    {
        let chapter = &chapters.chapters[i];
        let end: Option<ChapterTime> = if i + 1 < n {
            Some(chapters.chapters[i + 1].start_time)
        } else {
            None
        };
        let segment = Segment {
            file_name: chapter_file_name(i as u64 + 1, chapter.title.as_str()),
            start: chapter.start_time,
            end,
        };
        segments.push(segment);
        i += 1;
    }
    segments
}

} // verus!
