//! What a run starts from: the URLs it is given, and whether it goes on to
//! discover more.

use crate::page_url::{has_text, parsed, views, Url, UrlView};
use crate::text::{chars_of, string_of, trim, trimmed};
use vstd::prelude::*;

verus! {

/// The lines of `content`: the pieces between its line feeds. A text without
/// a line feed is one line.
pub open spec fn lines_of(content: Seq<char>) -> Seq<Seq<char>>
    decreases content.len(),
{
    if content.len() == 0 {
        seq![Seq::empty()]
    } else {
        let before = lines_of(content.drop_last());
        if content.last() == '\n' {
            before.push(Seq::empty())
        } else {
            before.drop_last().push(before.last().push(content.last()))
        }
    }
}

/// The lines with a line feed between each two of them.
pub open spec fn rejoined(lines: Seq<Seq<char>>) -> Seq<char>
    decreases lines.len(),
{
    if lines.len() == 0 {
        Seq::empty()
    } else if lines.len() == 1 {
        lines[0]
    } else {
        rejoined(lines.drop_last()) + seq!['\n'] + lines.last()
    }
}

/// The lines of a text are what the line feeds part: no line holds a line
/// feed, and the lines with line feeds between them are the text again.
pub proof fn lemma_lines_part_the_text(content: Seq<char>)
    ensures
        lines_of(content).len() >= 1,
        forall|i: int|
            0 <= i < lines_of(content).len() ==> !(#[trigger] lines_of(content)[i]).contains('\n'),
        rejoined(lines_of(content)) == content,
    decreases content.len(),
{
    let lines = lines_of(content);
    if content.len() == 0 {
        assert(rejoined(lines) =~= content);
        assert(!lines[0].contains('\n'));
    } else {
        let before = lines_of(content.drop_last());
        lemma_lines_part_the_text(content.drop_last());
        let c = content.last();
        assert(content =~= content.drop_last().push(c));
        if c == '\n' {
            assert(lines.drop_last() =~= before);
            assert(rejoined(lines) =~= content);
            assert forall|i: int| 0 <= i < lines.len() implies !(#[trigger] lines[i]).contains(
                '\n',
            ) by {
                if i < before.len() {
                    assert(lines[i] == before[i]);
                }
            }
        } else {
            let last = before.last().push(c);
            assert(lines.last() == last);
            if before.len() == 1 {
                assert(rejoined(lines) =~= content);
            } else {
                assert(lines.drop_last() =~= before.drop_last());
                assert(rejoined(lines) =~= rejoined(before).push(c));
            }
            assert forall|i: int| 0 <= i < lines.len() implies !(#[trigger] lines[i]).contains(
                '\n',
            ) by {
                if i < before.len() - 1 {
                    assert(lines[i] == before[i]);
                } else {
                    if lines[i].contains('\n') {
                        let k = choose|k: int| 0 <= k < last.len() && last[k] == '\n';
                        assert(before.last()[k] == '\n');
                        assert(before.last().contains('\n'));
                        assert(before[before.len() - 1].contains('\n'));
                    }
                }
            }
        }
    }
}

/// The URL that a line of a URL list gives: the line is trimmed; a blank
/// line and a line that starts with `#` give none, nor does a line that is
/// no absolute URL.
pub open spec fn entry(line: Seq<char>) -> Option<UrlView> {
    let text = trimmed(line);
    if text.len() == 0 || text[0] == '#' {
        None
    } else {
        parsed(text)
    }
}

/// The URLs that the lines give, in the order of the lines.
pub open spec fn entries(lines: Seq<Seq<char>>) -> Seq<UrlView>
    decreases lines.len(),
{
    if lines.len() == 0 {
        Seq::empty()
    } else {
        let before = entries(lines.drop_last());
        match entry(lines.last()) {
            Some(url) => before.push(url),
            None => before,
        }
    }
}

/// The URLs of a URL list, one to a line.
pub open spec fn listed_urls(content: Seq<char>) -> Seq<UrlView> {
    entries(lines_of(content))
}

/// The URL that `line` gives, if any.
fn read_entry(line: &Vec<char>) -> (out: Option<Url>)
    ensures
        match out {
            Some(url) => entry(line@) == Some(url@) && url.wf(),
            None => entry(line@) is None,
        },
{
    let text = trim(line);
    if text.len() == 0 || text[0] == '#' {
        return None;
    }
    let text = string_of(&text);
    Url::parse(text.as_str())
}

/// Reads a URL list: one URL to a line, blank lines and lines that start
/// with `#` passed over, and so are lines that are no absolute URL.
pub fn parse_url_list(content: &str) -> (out: Vec<Url>)
    ensures
        views(out@) == listed_urls(content@),
        forall|i: int| 0 <= i < out.len() ==> (#[trigger] out[i]).wf(),
{
    let chars = chars_of(content);
    let mut out: Vec<Url> = Vec::new();
    let mut line: Vec<char> = Vec::new();
    let ghost mut done: Seq<Seq<char>> = Seq::empty();
    let mut i: usize = 0;
    proof {
        assert(chars@.take(0) =~= Seq::<char>::empty());
        assert(seq![Seq::<char>::empty()] =~= done.push(line@));
    }
    while i < chars.len()
        invariant
            i <= chars.len(),
            chars@ == content@,
            lines_of(chars@.take(i as int)) == done.push(line@),
            views(out@) == entries(done),
            forall|k: int| 0 <= k < out.len() ==> (#[trigger] out[k]).wf(),
        decreases chars.len() - i,
    {
        let c = chars[i];
        proof {
            assert(chars@.take(i + 1).drop_last() =~= chars@.take(i as int));
            assert(chars@.take(i + 1).last() == c);
            assert(done.push(line@).drop_last() =~= done);
        }
        if c == '\n' {
            let ghost before = out@;
            match read_entry(&line) {
                Some(url) => {
                    out.push(url);
                    assert(views(out@) =~= views(before).push(url@));
                },
                None => {},
            }
            proof {
                assert(done.push(line@).drop_last() =~= done);
                done = done.push(line@);
            }
            line = Vec::new();
        } else {
            line.push(c);
        }
        i += 1;
    }
    proof {
        assert(chars@.take(i as int) =~= chars@);
        assert(done.push(line@).drop_last() =~= done);
    }
    let ghost before = out@;
    match read_entry(&line) {
        Some(url) => {
            out.push(url);
            assert(views(out@) =~= views(before).push(url@));
        },
        None => {},
    }
    out
}

/// The URLs without their repeats: each URL where it first occurs.
pub open spec fn first_occurrences(urls: Seq<UrlView>) -> Seq<UrlView>
    decreases urls.len(),
{
    if urls.len() == 0 {
        Seq::empty()
    } else {
        let before = first_occurrences(urls.drop_last());
        if has_text(before, urls.last().text) {
            before
        } else {
            before.push(urls.last())
        }
    }
}

/// The URLs to fetch of the URLs that were given: each URL once, in the
/// order in which they first occur, so that no page is fetched twice.
pub fn distinct_urls(urls: &[Url]) -> (out: Vec<Url>)
    ensures
        views(out@) == first_occurrences(views(urls@)),
        forall|i: int, j: int| 0 <= i < j < out.len() ==> out[i]@.text != out[j]@.text,
{
    let mut out: Vec<Url> = Vec::new();
    let mut i: usize = 0;
    assert(views(urls@.take(0)) =~= Seq::<UrlView>::empty());
    while i < urls.len()
        invariant
            i <= urls.len(),
            views(out@) == first_occurrences(views(urls@.take(i as int))),
            forall|a: int, b: int| 0 <= a < b < out.len() ==> out[a]@.text != out[b]@.text,
        decreases urls.len() - i,
    {
        let url = &urls[i];
        proof {
            let next = views(urls@.take(i + 1));
            assert(next.drop_last() =~= views(urls@.take(i as int)));
            assert(next.last() == url@);
        }
        let mut k: usize = 0;
        let mut found = false;
        while k < out.len() && !found
            invariant
                k <= out.len(),
                found ==> has_text(views(out@), url@.text),
                !found ==> forall|j: int| 0 <= j < k ==> views(out@)[j].text != url@.text,
            decreases out.len() - k + if found { 0int } else { 1int },
        {
            if out[k].same_as(url) {
                assert(views(out@)[k as int].text == url@.text);
                found = true;
            } else {
                k += 1;
            }
        }
        if !found {
            let ghost before = out@;
            out.push(url.clone());
            proof {
                assert(views(out@) =~= views(before).push(url@));
                assert forall|a: int, b: int| 0 <= a < b < out.len() implies out[a]@.text
                    != out[b]@.text by {
                    assert(out[a] == before[a]);
                    if b < before.len() {
                        assert(out[b] == before[b]);
                    } else {
                        assert(views(before)[a].text != url@.text);
                    }
                }
            }
        }
        i += 1;
    }
    assert(urls@.take(i as int) =~= urls@);
    out
}

/// A run discovers the pages to fetch when it is given a single URL on its
/// own, not from a list, and is not told to stay with that page.
pub open spec fn discovers(from_list: bool, given: nat, single: bool) -> bool {
    !from_list && given == 1 && !single
}

/// Whether a run that was given `given` URLs goes on to discover more.
pub fn needs_discovery(from_list: bool, given: usize, single: bool) -> (out: bool)
    ensures
        out == discovers(from_list, given as nat, single),
{
    !from_list && given == 1 && !single
}

/// `c`, a capital letter of the Latin alphabet replaced by its small one.
pub open spec fn small(c: char) -> char {
    if 'A' <= c <= 'Z' {
        ((c as u8) + 32) as char
    } else {
        c
    }
}

/// `text` in small letters.
pub open spec fn lowered(text: Seq<char>) -> Seq<char> {
    Seq::new(text.len(), |i: int| small(text[i]))
}

/// The answer is `y` or `yes`, in small or capital letters.
pub open spec fn affirms(answer: Seq<char>) -> bool {
    lowered(answer) == seq!['y'] || lowered(answer) == seq!['y', 'e', 's']
}

/// Whether `c` is the letter `letter`, small or capital.
fn is_letter(c: char, letter: char, capital: char) -> (out: bool)
    requires
        'a' <= letter <= 'z',
        capital == ((letter as u8) - 32) as char,
    ensures
        out == (small(c) == letter),
{
    c == letter || c == capital
}

/// Whether the answer to a question is a yes.
pub fn is_affirmative(answer: &str) -> (out: bool)
    ensures
        out == affirms(answer@),
{
    let chars = chars_of(answer);
    let ghost letters = lowered(answer@);
    if chars.len() == 1 {
        let yes = is_letter(chars[0], 'y', 'Y');
        proof {
            assert(letters[0] == small(chars[0]));
            assert(seq!['y'][0] == 'y');
            assert(seq!['y', 'e', 's'].len() == 3);
            if yes {
                assert(letters =~= seq!['y']);
            }
        }
        yes
    } else if chars.len() == 3 {
        let yes = is_letter(chars[0], 'y', 'Y') && is_letter(chars[1], 'e', 'E') && is_letter(
            chars[2],
            's',
            'S',
        );
        proof {
            assert(letters[0] == small(chars[0]));
            assert(letters[1] == small(chars[1]));
            assert(letters[2] == small(chars[2]));
            let word = seq!['y', 'e', 's'];
            assert(word[0] == 'y' && word[1] == 'e' && word[2] == 's');
            assert(seq!['y'].len() == 1);
            if yes {
                assert(letters =~= word);
            }
        }
        yes
    } else {
        proof {
            assert(seq!['y'].len() == 1);
            assert(seq!['y', 'e', 's'].len() == 3);
        }
        false
    }
}

} // verus!
