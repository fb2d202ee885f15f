use vstd::prelude::*;

use crate::completion::CompCandidate;
use crate::text::{join_spec, join_strings, push_char, views};

verus! {

/// The line being typed.
pub struct Buffer {
    text: String,
    _cursor_at: usize,
}

impl View for Buffer {
    type V = Seq<char>;

    /// The characters typed so far.
    closed spec fn view(&self) -> Seq<char> {
        self.text@
    }
}

impl Buffer {
    /// An empty line.
    pub fn new() -> (r: Buffer)
        ensures
            r@ == Seq::<char>::empty(),
    {
        Buffer { text: String::new(), _cursor_at: 0 }
    }

    /// The characters typed so far.
    pub fn text(&self) -> (r: &String)
        ensures
            r@ == self@,
    {
        &self.text
    }
}

/// What the terminal is to show, or what the line editor needs, after a key.
pub enum EditorAction {
    /// Enter was pressed: the line is done.
    Submit(String),
    /// Print these characters.
    Echo(String),
    /// Erase the character left of the cursor on screen.
    Erase,
    /// Nothing to show.
    Ignore,
    /// Ring the bell.
    Bell,
    /// Print a line break, the candidates on a line of their own, then the
    /// prompt and the line again.
    ShowCandidates { listing: String, line: String },
    /// Tab was pressed: complete the line, and hand the outcome to
    /// [`LineEditor::on_completion`].
    Complete,
}

/// The line editor's state between two keys: the line, and whether the last
/// key was a tab that rang the bell over several candidates.
pub struct LineEditor {
    buf: Buffer,
    tab: bool,
}

/// The byte `b` read as a character (Latin-1).
pub open spec fn byte_char(b: u8) -> char {
    b as char
}

impl LineEditor {
    /// The characters typed so far.
    pub closed spec fn line(&self) -> Seq<char> {
        self.buf@
    }

    /// Whether a second tab will list the candidates.
    pub closed spec fn tab_pending(&self) -> bool {
        self.tab
    }

    /// An empty line, no tab pending.
    pub fn new() -> (r: LineEditor)
        ensures
            r.line() == Seq::<char>::empty(),
            !r.tab_pending(),
    {
        LineEditor { buf: Buffer::new(), tab: false }
    }

    /// The characters typed so far.
    pub fn text(&self) -> (r: &String)
        ensures
            r@ == self.line(),
    {
        self.buf.text()
    }

    /// Reads one key: newline ends the line; tab asks for a completion;
    /// DEL erases the last character when there is one; any other byte is
    /// typed. Every key but tab clears a pending tab.
    pub fn on_byte(&mut self, byte: u8) -> (r: EditorAction)
        ensures
            byte == 0x0a ==> (r matches EditorAction::Submit(s) && s@ == old(self).line())
                && final(self).line() == old(self).line() && final(self).tab_pending() == old(
                self,
            ).tab_pending(),
            byte == 0x09 ==> r is Complete && final(self).line() == old(self).line()
                && final(self).tab_pending() == old(self).tab_pending(),
            byte == 0x7f ==> !final(self).tab_pending() && if old(self).line().len() > 0 {
                r is Erase && final(self).line() == old(self).line().drop_last()
            } else {
                r is Ignore && final(self).line() == old(self).line()
            },
            byte != 0x0a && byte != 0x09 && byte != 0x7f ==> !final(self).tab_pending()
                && final(self).line() == old(self).line().push(byte_char(byte)) && (
            r matches EditorAction::Echo(s) && s@ == seq![byte_char(byte)]),
    {
        if byte == 0x0a {
            EditorAction::Submit(self.buf.text.clone())
        } else if byte == 0x09 {
            EditorAction::Complete
        } else if byte == 0x7f {
            self.tab = false;
            if self.buf.text.as_str().is_empty() {
                EditorAction::Ignore
            } else {
                let _ = pop_char(&mut self.buf.text);
                EditorAction::Erase
            }
        } else {
            let c = byte as char;
            push_char(&mut self.buf.text, c);
            let mut shown = String::new();
            push_char(&mut shown, c);
            self.tab = false;
            EditorAction::Echo(shown)
        }
    }

    /// Applies what tab found: rings the bell for nothing; appends the
    /// expansion, and a space when the word is complete; for several
    /// candidates rings the bell the first time and lists them the second.
    pub fn on_completion(&mut self, candidate: CompCandidate) -> (r: EditorAction)
        ensures
            match candidate {
                CompCandidate::Nothing => r is Bell && final(self).line() == old(self).line()
                    && final(self).tab_pending() == old(self).tab_pending(),
                CompCandidate::ExpandBuffer { suffix, append_space } => {
                    let added = if append_space {
                        suffix@.push(' ')
                    } else {
                        suffix@
                    };
                    &&& r matches EditorAction::Echo(s) && s@ == added
                    &&& final(self).line() == old(self).line() + added
                    &&& final(self).tab_pending() == old(self).tab_pending()
                },
                CompCandidate::ListCandidates { candidates } => {
                    &&& final(self).line() == old(self).line()
                    &&& final(self).tab_pending() == !old(self).tab_pending()
                    &&& !old(self).tab_pending() ==> r is Bell
                    &&& old(self).tab_pending() ==> (r matches EditorAction::ShowCandidates {
                        listing,
                        line,
                    } && listing@ == join_spec(views(candidates@), "  "@) && line@ == old(
                        self,
                    ).line())
                },
            },
    {
        match candidate {
            CompCandidate::Nothing => EditorAction::Bell,
            CompCandidate::ExpandBuffer { suffix, append_space } => {
                let mut shown = suffix;
                if append_space {
                    push_char(&mut shown, ' ');
                }
                self.buf.text.append(shown.as_str());
                EditorAction::Echo(shown)
            },
            CompCandidate::ListCandidates { candidates } => {
                if !self.tab {
                    self.tab = true;
                    EditorAction::Bell
                } else {
                    self.tab = false;
                    let listing = join_strings(&candidates, "  ");
                    EditorAction::ShowCandidates { listing, line: self.buf.text.clone() }
                }
            },
        }
    }
}

/// Typing a character and then erasing gives back the line as it was.
pub proof fn law_erase_undoes_typing(line: Seq<char>, c: char)
    ensures
        line.push(c).len() > 0,
        line.push(c).drop_last() == line,
{
    assert(line.push(c).drop_last() =~= line);
}

/// A typed byte becomes the character with the same code (so every ASCII
/// key is typed as itself), and different bytes give different characters.
pub proof fn law_byte_is_its_own_character(b: u8, d: u8)
    ensures
        byte_char(b) as u32 == b as u32,
        byte_char(b) != byte_char(d) <==> b != d,
{
}

/// `String::pop`: claimed to return the last character and leave the ones
/// before it, or to return nothing and leave an empty string as it is.
#[verifier::external_body]
fn pop_char(s: &mut String) -> (r: Option<char>)
    ensures
        old(s)@.len() > 0 ==> r == Some(old(s)@.last()) && final(s)@ == old(s)@.drop_last(),
        old(s)@.len() == 0 ==> r is None && final(s)@ == old(s)@,
{
    s.pop()
}

} // verus!
