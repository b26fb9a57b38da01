//! Terminal output as text: color and emoji gating, OSC 8 hyperlinks, and the
//! canonical one-line rendering of a memo. Printing is left to the caller.
use vstd::prelude::*;
use anstyle::{AnsiColor, Color, Style as AnsiStyle};
use crate::config::Config;
use crate::memo::Memo;
use crate::text;

verus! {

/// The ANSI styles the tool paints text with.
#[derive(Clone, Copy, Debug, PartialEq, Eq, Structural)]
pub enum Tint {
    /// Errors.
    Red,
    /// Success messages.
    Green,
    /// Tags.
    Magenta,
    /// Group headings.
    BoldCyan,
    /// Dimmed details such as line numbers and counts.
    BrightBlack,
}

/// The escape character.
pub open spec fn esc() -> char {
    '\u{1b}'
}

/// The paperclip emoji that marks memo lines.
pub open spec fn clip() -> Seq<char> {
    seq!['\u{1F4CE}', ' ']
}

/// A select-graphic-rendition code: `ESC [ code m`.
pub open spec fn sgr(code: Seq<char>) -> Seq<char> {
    seq![esc(), '['] + code + seq!['m']
}

/// The code that turns a tint on, as anstyle renders it: the effects first,
/// then the foreground color.
pub open spec fn tint_open(t: Tint) -> Seq<char> {
    match t {
        Tint::Red => sgr(seq!['3', '1']),
        Tint::Green => sgr(seq!['3', '2']),
        Tint::Magenta => sgr(seq!['3', '5']),
        Tint::BoldCyan => sgr(seq!['1']) + sgr(seq!['3', '6']),
        Tint::BrightBlack => sgr(seq!['9', '0']),
    }
}

/// `text` in the tint, followed by the reset code.
pub open spec fn painted(t: Tint, text: Seq<char>) -> Seq<char> {
    tint_open(t) + text + sgr(seq!['0'])
}

/// Renders `text` in the tint, as `format!("{style}{text}{style:#}")` does
/// for the matching `anstyle::Style`.
///
/// Trusted: anstyle writes a style's effects (bold is `ESC[1m`) and then its
/// foreground color (`ESC[3Nm` for the basic colors, `ESC[9Nm` for the bright
/// ones) for `{}`, and the reset `ESC[0m` for `{:#}` of any style other than
/// the empty one.
#[verifier::external_body]
pub(crate) fn paint(tint: Tint, text: &str) -> (r: String)
    ensures
        r@ == painted(tint, text@),
{
    let style = match tint {
        Tint::Red => AnsiStyle::new().fg_color(Some(Color::Ansi(AnsiColor::Red))),
        Tint::Green => AnsiStyle::new().fg_color(Some(Color::Ansi(AnsiColor::Green))),
        Tint::Magenta => AnsiStyle::new().fg_color(Some(Color::Ansi(AnsiColor::Magenta))),
        Tint::BoldCyan => AnsiStyle::new().bold().fg_color(Some(Color::Ansi(AnsiColor::Cyan))),
        Tint::BrightBlack => AnsiStyle::new().fg_color(Some(Color::Ansi(AnsiColor::BrightBlack))),
    };
    format!("{style}{text}{style:#}")
}

/// Resolved presentation capabilities for this invocation.
#[derive(Clone, Copy, Debug, PartialEq, Eq, Structural)]
pub struct Style {
    /// ANSI color enabled.
    pub color: bool,
    /// Emoji enabled.
    pub emoji: bool,
    /// OSC 8 hyperlinks enabled.
    pub hyperlinks: bool,
}

/// `s` with every space percent-encoded as `%20`.
pub open spec fn encode_spaces(s: Seq<char>) -> Seq<char>
    decreases s.len(),
{
    if s.len() == 0 {
        Seq::empty()
    } else {
        encode_spaces(s.drop_last()) + if s.last() == ' ' {
            seq!['%', '2', '0']
        } else {
            seq![s.last()]
        }
    }
}

/// The OSC 8 hyperlink introducer `ESC ] 8 ; ;`.
pub open spec fn osc8() -> Seq<char> {
    seq![esc(), ']', '8', ';', ';']
}

/// The string terminator `ESC \`.
pub open spec fn st() -> Seq<char> {
    seq![esc(), '\\']
}

/// `file://`.
pub open spec fn file_scheme() -> Seq<char> {
    seq!['f', 'i', 'l', 'e', ':', '/', '/']
}

/// `text` as an OSC 8 hyperlink to `file://<path>` (spaces encoded) when
/// `hyperlinks` is on; otherwise `text` itself.
pub open spec fn link_text(hyperlinks: bool, text: Seq<char>, path: Seq<char>) -> Seq<char> {
    if hyperlinks {
        osc8() + file_scheme() + encode_spaces(path) + st() + text + osc8() + st()
    } else {
        text
    }
}

/// The canonical memo line: the linked `title[path]` token, behind a
/// paperclip when emoji is on.
pub open spec fn memo_line_text(style: Style, title: Seq<char>, path: Seq<char>) -> Seq<char> {
    let token = title + seq!['['] + path + seq![']'];
    let linked = link_text(style.hyperlinks, token, path);
    if style.emoji {
        clip() + linked
    } else {
        linked
    }
}

/// A success message as printed: behind a paperclip when emoji is on, and
/// green when color is on.
pub open spec fn success_message(style: Style, message: Seq<char>) -> Seq<char> {
    let prefix = if style.emoji {
        clip()
    } else {
        Seq::empty()
    };
    if style.color {
        prefix + painted(Tint::Green, message)
    } else {
        prefix + message
    }
}

/// Appends `s` with its spaces percent-encoded.
pub fn push_encoded(out: &mut Vec<char>, s: &str)
    ensures
        final(out)@ == old(out)@ + encode_spaces(s@),
{
    let v = text::chars_of(s);
    let mut i: usize = 0;
    while i < v.len()
        invariant
            i <= v.len(),
            v@ == s@,
            out@ == old(out)@ + encode_spaces(v@.take(i as int)),
        decreases v.len() - i,
    {
        assert(v@.take(i + 1).drop_last() =~= v@.take(i as int));
        if v[i] == ' ' {
            out.push('%');
            out.push('2');
            out.push('0');
        } else {
            out.push(v[i]);
        }
        i = i + 1;
    }
    assert(v@.take(v.len() as int) =~= v@);
}

/// Appends `ESC ] 8 ; ;`.
fn push_osc8(out: &mut Vec<char>)
    ensures
        final(out)@ == old(out)@ + osc8(),
{
    out.push('\u{1b}');
    out.push(']');
    out.push('8');
    out.push(';');
    out.push(';');
}

/// Appends `ESC \`.
fn push_st(out: &mut Vec<char>)
    ensures
        final(out)@ == old(out)@ + st(),
{
    out.push('\u{1b}');
    out.push('\\');
}

impl Style {
    /// Derive a `Style` from the configuration and the environment: color
    /// when the configuration allows it, `NO_COLOR` is not set to something
    /// non-empty and stdout is a terminal; emoji when the configuration allows
    /// it; hyperlinks when stdout is a terminal.
    pub fn from_config(config: &Config, is_tty: bool, no_color: bool) -> (r: Style)
        ensures
            r.color == (!config.disable_color && !no_color && is_tty),
            r.emoji == !config.disable_emoji,
            r.hyperlinks == is_tty,
    {
        Style { color: !config.disable_color && !no_color && is_tty, emoji: !config.disable_emoji, hyperlinks: is_tty }
    }

    /// Render `text` as an OSC 8 hyperlink to `file://<path>` when
    /// `hyperlinks` is on; otherwise return `text` unchanged. The `path`
    /// should be absolute; spaces are percent-encoded.
    pub fn link(&self, text: &str, path: &str) -> (r: String)
        ensures
            r@ == link_text(self.hyperlinks, text@, path@),
    {
        if !self.hyperlinks {
            return text.to_string();
        }
        let mut out: Vec<char> = Vec::new();
        push_osc8(&mut out);
        text::push_str(&mut out, "file://");
        push_encoded(&mut out, path);
        push_st(&mut out);
        text::push_str(&mut out, text);
        push_osc8(&mut out);
        push_st(&mut out);
        proof {
            reveal_strlit("file://");
            assert(out@ =~= link_text(self.hyperlinks, text@, path@));
        }
        text::string_from_chars(out.as_slice())
    }

    /// Format a single memo as the canonical `📎 title[path]` line. The whole
    /// `title[path]` token is the link; the paperclip is dropped when emoji is
    /// disabled.
    pub fn memo_line(&self, memo: &Memo) -> (r: String)
        ensures
            r@ == memo_line_text(*self, memo.title@, memo.path@),
    {
        let mut token: Vec<char> = Vec::new();
        text::push_str(&mut token, memo.title.as_str());
        token.push('[');
        text::push_str(&mut token, memo.path.as_str());
        token.push(']');
        let token = text::string_from_chars(token.as_slice());
        let linked = self.link(token.as_str(), memo.path.as_str());
        if self.emoji {
            let mut out: Vec<char> = vec!['\u{1F4CE}', ' '];
            text::push_str(&mut out, linked.as_str());
            text::string_from_chars(out.as_slice())
        } else {
            linked
        }
    }
}

/// A success or informational message as it is printed to stdout: with the
/// paperclip when emoji is enabled, in green when color is enabled.
pub fn success(style: &Style, message: &str) -> (r: String)
    ensures
        r@ == success_message(*style, message@),
{
    let mut out: Vec<char> = Vec::new();
    if style.emoji {
        out.push('\u{1F4CE}');
        out.push(' ');
    }
    if style.color {
        let g = paint(Tint::Green, message);
        text::push_str(&mut out, g.as_str());
    } else {
        text::push_str(&mut out, message);
    }
    proof {
        assert(out@ =~= success_message(*style, message@));
    }
    text::string_from_chars(out.as_slice())
}

} // verus!
