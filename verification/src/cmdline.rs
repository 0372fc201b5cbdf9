//! The command grammar: one input line becomes either an administrative
//! command or verbatim chat content.
//!
//! A line whose first character is the sentinel `'!'` is always an
//! administrative command line and can never become chat content; every
//! other non-empty line is chat, kept verbatim. The grammar is given once,
//! as the specification function [`parse_spec`], and the executable
//! [`parse`] is proved to agree with it on every input string.

use vstd::prelude::*;

verus! {

/// A chat line, kept verbatim.
pub struct CmdChat {
    pub chat_content: String,
}

/// An administrative command. The locator of `SaveContext` / `ReadContext`
/// is an opaque path-like string, passed through to the persistence layer
/// uninterpreted.
pub enum CmdOperation {
    ClearContext,
    SaveContext(String),
    ReadContext(String),
    QuitCmd,
}

/// A fully parsed input line.
pub enum CmdLine {
    Chat(CmdChat),
    Operation(CmdOperation),
}

/// A generic carrier for a value about to be converted.
pub struct TryFromWrapper<T>(pub T);

impl<T> TryFromWrapper<T> {
    pub fn extract(self) -> (r: T)
        ensures
            r == self.0,
    {
        self.0
    }
}

/// A malformed command line: an unrecognized verb after the sentinel, or a
/// missing required argument. Carries no detail; the line itself is the
/// detail.
#[derive(Debug)]
pub struct CmdParseError;

/// The mathematical value of a parsed line.
pub enum CmdLineView {
    Chat(Seq<char>),
    Clear,
    Save(Seq<char>),
    Read(Seq<char>),
    Quit,
}

impl View for CmdChat {
    type V = Seq<char>;

    open spec fn view(&self) -> Seq<char> {
        self.chat_content@
    }
}

impl View for CmdLine {
    type V = CmdLineView;

    open spec fn view(&self) -> CmdLineView {
        match self {
            CmdLine::Chat(c) => CmdLineView::Chat(c.chat_content@),
            CmdLine::Operation(CmdOperation::ClearContext) => CmdLineView::Clear,
            CmdLine::Operation(CmdOperation::SaveContext(l)) => CmdLineView::Save(l@),
            CmdLine::Operation(CmdOperation::ReadContext(l)) => CmdLineView::Read(l@),
            CmdLine::Operation(CmdOperation::QuitCmd) => CmdLineView::Quit,
        }
    }
}

/// The position of the first space at or after `i`, or the length of `s`
/// when no space follows.
pub open spec fn token_end(s: Seq<char>, i: int) -> int
    decreases s.len() - i,
{
    if i < 0 || i >= s.len() {
        s.len() as int
    } else if s[i] == ' ' {
        i
    } else {
        token_end(s, i + 1)
    }
}

/// The grammar itself. `None` is a parse error.
///
/// An empty line has no verb and is an error. A line not starting with the
/// sentinel is chat, verbatim. Otherwise the first space-delimited token is
/// the verb; `!save` and `!read` require one locator token (the characters
/// after the verb's space, up to the next space), `!clear` and `!quit`
/// take none, and anything else is an error.
pub open spec fn parse_spec(s: Seq<char>) -> Option<CmdLineView> {
    if s.len() == 0 {
        None
    } else if s[0] != '!' {
        Some(CmdLineView::Chat(s))
    } else {
        let e0 = token_end(s, 0);
        let verb = s.subrange(0, e0);
        if verb == "!clear"@ {
            Some(CmdLineView::Clear)
        } else if verb == "!quit"@ {
            Some(CmdLineView::Quit)
        } else if verb == "!save"@ || verb == "!read"@ {
            if e0 == s.len() {
                None
            } else {
                let loc = s.subrange(e0 + 1, token_end(s, e0 + 1));
                if verb == "!save"@ {
                    Some(CmdLineView::Save(loc))
                } else {
                    Some(CmdLineView::Read(loc))
                }
            }
        } else {
            None
        }
    }
}

/// Character-by-character string equality, with its meaning on the views.
fn str_eq(a: &str, b: &str) -> (r: bool)
    ensures
        r == (a@ == b@),
{
    let na: usize = a.unicode_len();
    let nb: usize = b.unicode_len();
    if na != nb {
        return false;
    }
    let mut i: usize = 0;
    while i < na
        invariant
            na == a@.len() == b@.len(),
            0 <= i <= na,
            forall|j: int| 0 <= j < i ==> a@[j] == b@[j],
        decreases na - i,
    {
        if a.get_char(i) != b.get_char(i) {
            return false;
        }
        i = i + 1;
    }
    proof {
        assert(a@ =~= b@);
    }
    true
}

/// The first space in `line` at or after `from`, or `n` when none follows.
fn find_space(line: &str, from: usize, n: usize) -> (r: usize)
    requires
        n == line@.len(),
        from <= n,
    ensures
        from <= r <= n,
        r as int == token_end(line@, from as int),
{
    let mut i: usize = from;
    while i < n
        invariant
            n == line@.len(),
            from <= i <= n,
            token_end(line@, from as int) == token_end(line@, i as int),
        decreases n - i,
    {
        if line.get_char(i) == ' ' {
            return i;
        }
        i = i + 1;
    }
    i
}

/// Parses one input line, exactly as [`parse_spec`] says: `Ok` holds the
/// command whose view the grammar gives, and `Err` is returned precisely on
/// the lines the grammar rejects.
pub fn parse(line: &str) -> (r: Result<CmdLine, CmdParseError>)
    ensures
        match r {
            Ok(c) => parse_spec(line@) == Some(c@),
            Err(_) => parse_spec(line@) is None,
        },
{
    let n: usize = line.unicode_len();
    if n == 0 {
        return Err(CmdParseError);
    }
    if line.get_char(0) != '!' {
        return Ok(CmdLine::Chat(CmdChat { chat_content: line.to_owned() }));
    }
    let e0: usize = find_space(line, 0, n);
    let verb: &str = line.substring_char(0, e0);
    if str_eq(verb, "!clear") {
        Ok(CmdLine::Operation(CmdOperation::ClearContext))
    } else if str_eq(verb, "!quit") {
        Ok(CmdLine::Operation(CmdOperation::QuitCmd))
    } else {
        let is_save = str_eq(verb, "!save");
        let is_read = str_eq(verb, "!read");
        if is_save || is_read {
            if e0 == n {
                Err(CmdParseError)
            } else {
                let e1: usize = find_space(line, e0 + 1, n);
                let loc: &str = line.substring_char(e0 + 1, e1);
                let locator = loc.to_owned();
                if is_save {
                    Ok(CmdLine::Operation(CmdOperation::SaveContext(locator)))
                } else {
                    Ok(CmdLine::Operation(CmdOperation::ReadContext(locator)))
                }
            }
        } else {
            Err(CmdParseError)
        }
    }
}

} // verus!
