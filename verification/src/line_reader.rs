//! Where the lines that a player types come from.

use vstd::prelude::*;

verus! {

/// A source of lines of text.
pub trait LineReader {
    /// Puts the next line into `input`, in place of what `input` held.
    fn read_line(&mut self, input: &mut String);
}

/// A source that hands out the lines of a script, one after the other, and
/// empty lines once the script has run out.
#[derive(Clone)]
pub struct MockLineReader {
    index: usize,
    lines: Vec<String>,
}

/// The lines as sequences of characters.
pub open spec fn texts(lines: Seq<String>) -> Seq<Seq<char>> {
    lines.map_values(|line: String| line@)
}

impl View for MockLineReader {
    type V = Seq<Seq<char>>;

    /// The lines of the script that have not been handed out yet.
    closed spec fn view(&self) -> Seq<Seq<char>> {
        if self.index <= self.lines@.len() {
            texts(self.lines@).skip(self.index as int)
        } else {
            Seq::empty()
        }
    }
}

impl Default for MockLineReader {
    /// A source with the script "2 3", "1 2".
    fn default() -> (reader: Self)
        ensures
            reader@ == seq!["2 3"@, "1 2"@],
    {
        let lines: Vec<String> = vec!["2 3".to_string(), "1 2".to_string()];
        let reader = MockLineReader { index: 0, lines };
        assert(reader@ =~= seq!["2 3"@, "1 2"@]);
        reader
    }
}

impl LineReader for MockLineReader {
    fn read_line(&mut self, input: &mut String)
        ensures
            old(self)@.len() > 0 ==> final(input)@ == old(self)@[0] && final(self)@ == old(self)@.skip(
                1,
            ),
            old(self)@.len() == 0 ==> final(input)@ == Seq::<char>::empty() && final(self)@ == old(
                self,
            )@,
    {
        let index: usize = self.index;
        if index < self.lines.len() {
            *input = self.lines[index].clone();
            self.index = index + 1;
            assert(self@ =~= old(self)@.skip(1));
        } else {
            *input = String::new();
            assert(self@ =~= Seq::<Seq<char>>::empty());
        }
    }
}

} // verus!
