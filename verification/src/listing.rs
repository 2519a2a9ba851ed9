//! The ranked listing as the user sees it: positions counted from the top,
//! and the text of each line.

use crate::entry::{File, FileView};
use crate::error::Error;
use crate::paths::{joined, place_of};
use crate::rating::{whole_points, whole_spread};
use crate::text::{
    as_text, decimal, digits, first_line, first_line_of, push_decimal, push_digits, trimmed,
    trimmed_text, utc_text, utc_time_text,
};
use vstd::prelude::*;
use vstd::string::StringExecFns;
use vstd::utf8::{decode_utf8, valid_utf8};

verus! {

/// Whether an entry can be shown: it has a version, and its latest content,
/// if it has any, is text.
pub open spec fn has_label(file: FileView) -> bool {
    &&& file.file_contents.len() > 0
    &&& file.file_contents.last().content matches Some(bytes) ==> valid_utf8(bytes)
}

/// How an entry is shown: a live one by the first line of its content and
/// its path, a deleted one by its path.
pub open spec fn label_text(file: FileView) -> Seq<char> {
    match file.file_contents.last().content {
        Some(bytes) => decode_utf8(first_line(bytes)) + " ("@ + file.path + ")"@,
        None => file.path + " (deleted)"@,
    }
}

/// One line of the listing: the position, the entry, and its rating and
/// uncertainty in whole numbers.
pub open spec fn line_text(number: nat, file: FileView) -> Seq<char> {
    digits(number) + ". "@ + label_text(file) + " (score: "@ + decimal(
        whole_points(file.rating) as int,
    ) + ", deviation: "@ + decimal(whole_spread(file.rating) as int) + ")"@
}

/// What is shown of one entry: its line and, where it is live, the time of
/// its latest version and its content without the white space around it.
pub open spec fn detail_text(number: nat, file: FileView) -> Seq<char> {
    match file.file_contents.last().content {
        Some(bytes) => line_text(number, file) + "\n\n@ "@ + utc_text(
            file.file_contents.last().at,
        ).unwrap() + "\n"@ + trimmed(decode_utf8(bytes)),
        None => line_text(number, file),
    }
}

/// The entry at position `number` of a listing that is in rank order, lowest
/// first: position 1 is the last entry, the one ranked highest.
pub open spec fn at_position(items: Seq<FileView>, number: nat) -> FileView {
    items[items.len() - number]
}

impl File {
    /// How the entry is shown; `None` where it cannot be shown.
    pub fn label(&self) -> (text: Option<String>)
        ensures
            match text {
                Some(s) => has_label(self@) && s@ == label_text(self@),
                None => !has_label(self@),
            },
    {
        match self.last_content() {
            None => None,
            Some(latest) => match &latest.content {
                None => {
                    let mut text = self.path.clone();
                    text.append(" (deleted)");
                    Some(text)
                },
                Some(bytes) => match as_text(bytes) {
                    None => None,
                    Some(content) => {
                        let mut text = String::from_str(first_line_of(content));
                        text.append(" (");
                        text.append(self.path.as_str());
                        text.append(")");
                        Some(text)
                    },
                },
            },
        }
    }

    /// The line of the entry at position `number` of the listing; `None`
    /// where the entry cannot be shown.
    pub fn line(&self, number: usize) -> (text: Option<String>)
        ensures
            match text {
                Some(s) => has_label(self@) && s@ == line_text(number as nat, self@),
                None => !has_label(self@),
            },
    {
        match self.label() {
            None => None,
            Some(label) => {
                let mut text = String::new();
                push_digits(&mut text, number as u64);
                text.append(". ");
                text.append(label.as_str());
                text.append(" (score: ");
                push_decimal(&mut text, self.rating.points());
                text.append(", deviation: ");
                push_decimal(&mut text, self.rating.spread());
                text.append(")");
                assert(text@ =~= line_text(number as nat, self@));
                Some(text)
            },
        }
    }
}

/// Why the entry at `index` cannot be shown.
fn no_label(file: &File, index: usize) -> (e: Error)
    requires
        !has_label(file@),
    ensures
        file@.file_contents.len() == 0 ==> e == (Error::EmptyHistory { index }),
        file@.file_contents.len() > 0 ==> e == (Error::NotText { index }),
{
    if file.file_contents.len() == 0 {
        Error::EmptyHistory { index }
    } else {
        Error::NotText { index }
    }
}

/// The entry at position `number` of the listing `items`, which is in rank
/// order, lowest first. Positions count from the top: position 1 is the
/// entry ranked highest.
///
/// A position beyond the listing, and position 0, hold no item.
pub fn get_file_with_index(items: &Vec<File>, number: usize) -> (result: Result<File, Error>)
    ensures
        1 <= number <= items.len() <==> result is Ok,
        match result {
            Ok(file) => file@ == at_position(items.deep_view(), number as nat),
            Err(e) => e == (Error::NoSuchItem { number }),
        },
{
    if number == 0 || number > items.len() {
        return Err(Error::NoSuchItem { number });
    }
    Ok(items[items.len() - number].duplicate())
}

/// How each of the entries `items` is shown, in their order: what the user is
/// given to choose from.
///
/// Nothing is shown where an entry cannot be shown: the error names the
/// first such entry and says whether it lacks a version or holds no text.
pub fn labels(items: &Vec<File>) -> (result: Result<Vec<String>, Error>)
    ensures
        match result {
            Ok(texts) => {
                &&& texts.len() == items.len()
                &&& forall|k: int|
                    0 <= k < items.len() ==> has_label(#[trigger] items.deep_view()[k])
                &&& forall|k: int|
                    0 <= k < items.len() ==> (#[trigger] texts[k])@ == label_text(
                        items.deep_view()[k],
                    )
            },
            Err(e) => exists|index: int|
                {
                    &&& 0 <= index < items.len()
                    &&& !has_label(#[trigger] items.deep_view()[index])
                    &&& forall|k: int| 0 <= k < index ==> has_label(#[trigger] items.deep_view()[k])
                    &&& e == if items.deep_view()[index].file_contents.len() == 0 {
                        Error::EmptyHistory { index: index as usize }
                    } else {
                        Error::NotText { index: index as usize }
                    }
                },
        },
{
    let mut texts: Vec<String> = Vec::new();
    let mut k: usize = 0;
    while k < items.len()
        invariant
            k <= items.len(),
            texts.len() == k,
            forall|j: int| 0 <= j < k ==> has_label(#[trigger] items.deep_view()[j]),
            forall|j: int|
                0 <= j < k ==> (#[trigger] texts[j])@ == label_text(items.deep_view()[j]),
        decreases items.len() - k,
    {
        let file = &items[k];
        assert(file@ == items.deep_view()[k as int]);
        match file.label() {
            Some(text) => {
                texts.push(text);
            },
            None => {
                return Err(no_label(file, k));
            },
        }
        k += 1;
    }
    Ok(texts)
}

/// The lines of the listing `items`, which is in rank order, lowest first.
/// The lines come in that order, each with its position from the top, so
/// that the last line is that of position 1.
///
/// Nothing is shown where an entry cannot be shown: the error names the
/// first such entry and says whether it lacks a version or holds no text.
pub fn show(items: &Vec<File>) -> (result: Result<Vec<String>, Error>)
    ensures
        match result {
            Ok(lines) => {
                &&& lines.len() == items.len()
                &&& forall|k: int|
                    0 <= k < items.len() ==> has_label(#[trigger] items.deep_view()[k])
                &&& forall|k: int|
                    0 <= k < items.len() ==> (#[trigger] lines[k])@ == line_text(
                        (items.len() - k) as nat,
                        items.deep_view()[k],
                    )
            },
            Err(e) => exists|index: int|
                {
                    &&& 0 <= index < items.len()
                    &&& !has_label(#[trigger] items.deep_view()[index])
                    &&& forall|k: int| 0 <= k < index ==> has_label(#[trigger] items.deep_view()[k])
                    &&& e == if items.deep_view()[index].file_contents.len() == 0 {
                        Error::EmptyHistory { index: index as usize }
                    } else {
                        Error::NotText { index: index as usize }
                    }
                },
        },
{
    let mut lines: Vec<String> = Vec::new();
    let mut k: usize = 0;
    while k < items.len()
        invariant
            k <= items.len(),
            lines.len() == k,
            forall|j: int| 0 <= j < k ==> has_label(#[trigger] items.deep_view()[j]),
            forall|j: int|
                0 <= j < k ==> (#[trigger] lines[j])@ == line_text(
                    (items.len() - j) as nat,
                    items.deep_view()[j],
                ),
        decreases items.len() - k,
    {
        let file = &items[k];
        assert(file@ == items.deep_view()[k as int]);
        match file.line(items.len() - k) {
            Some(line) => {
                lines.push(line);
            },
            None => {
                return Err(no_label(file, k));
            },
        }
        k += 1;
    }
    Ok(lines)
}

/// What is shown of the entry at position `number` of the listing `items`:
/// its line and, where it is live, the time of its latest version and its
/// content without the white space around it.
pub fn show_one(items: &Vec<File>, number: usize) -> (result: Result<String, Error>)
    ensures
        match result {
            Ok(text) => {
                &&& 1 <= number <= items.len()
                &&& has_label(at_position(items.deep_view(), number as nat))
                &&& at_position(items.deep_view(), number as nat).is_live() ==> utc_text(
                    at_position(items.deep_view(), number as nat).file_contents.last().at,
                ) is Some
                &&& text@ == detail_text(
                    number as nat,
                    at_position(items.deep_view(), number as nat),
                )
            },
            Err(Error::NoSuchItem { number: asked }) => asked == number && !(1 <= number
                <= items.len()),
            Err(Error::EmptyHistory { index }) => {
                &&& 1 <= number <= items.len()
                &&& index == items.len() - number
                &&& at_position(items.deep_view(), number as nat).file_contents.len() == 0
            },
            Err(Error::NotText { index }) => {
                &&& 1 <= number <= items.len()
                &&& index == items.len() - number
                &&& at_position(items.deep_view(), number as nat).file_contents.len() > 0
                &&& !has_label(at_position(items.deep_view(), number as nat))
            },
            Err(Error::TimeOutOfRange { index }) => {
                &&& 1 <= number <= items.len()
                &&& index == items.len() - number
                &&& has_label(at_position(items.deep_view(), number as nat))
                &&& at_position(items.deep_view(), number as nat).is_live()
                &&& utc_text(
                    at_position(items.deep_view(), number as nat).file_contents.last().at,
                ) is None
            },
            Err(_) => false,
        },
{
    if number == 0 || number > items.len() {
        return Err(Error::NoSuchItem { number });
    }
    let index: usize = items.len() - number;
    let file = &items[index];
    assert(file@ == at_position(items.deep_view(), number as nat));
    let mut text = match file.line(number) {
        Some(line) => line,
        None => {
            return Err(no_label(file, index));
        },
    };
    match file.last_content() {
        None => {},
        Some(latest) => match &latest.content {
            None => {},
            Some(bytes) => {
                let time = match utc_time_text(latest.at) {
                    Some(time) => time,
                    None => {
                        return Err(Error::TimeOutOfRange { index });
                    },
                };
                match as_text(bytes) {
                    None => {},
                    Some(content) => {
                        text.append("\n\n@ ");
                        text.append(time.as_str());
                        text.append("\n");
                        text.append(trimmed_text(content));
                    },
                }
            },
        },
    }
    Ok(text)
}

/// What removing the entry at a position of the listing takes.
pub struct Removal {
    /// The entry to remove.
    pub file: File,
    /// The place of its file on disk.
    pub target: String,
}

/// The entry at position `number` of the listing `items`, and the place of
/// its file under `root`. Removing that file and running a pass gives the
/// entry its tombstone.
pub fn remove(root: &String, items: &Vec<File>, number: usize) -> (result: Result<Removal, Error>)
    ensures
        1 <= number <= items.len() <==> result is Ok,
        match result {
            Ok(removal) => {
                &&& removal.file@ == at_position(items.deep_view(), number as nat)
                &&& removal.target@ == joined(root@, removal.file@.path)
            },
            Err(e) => e == (Error::NoSuchItem { number }),
        },
{
    match get_file_with_index(items, number) {
        Err(e) => Err(e),
        Ok(file) => {
            let target = place_of(root.as_str(), file.path.as_str());
            Ok(Removal { file, target })
        },
    }
}

/// The notice that the entry at position `number` was removed; `None` where
/// the entry cannot be shown.
pub fn removal_notice(number: usize, file: &File) -> (text: Option<String>)
    ensures
        match text {
            Some(s) => has_label(file@) && s@ == "File "@ + digits(number as nat) + " ("@
                + label_text(file@) + ") removed"@,
            None => !has_label(file@),
        },
{
    match file.label() {
        None => None,
        Some(label) => {
            let mut text = String::from_str("File ");
            push_digits(&mut text, number as u64);
            text.append(" (");
            text.append(label.as_str());
            text.append(") removed");
            Some(text)
        },
    }
}

} // verus!
