//! LaTeX symbols and their stable identifiers.

use crate::encoding::{base64_of, encode_base64};
use vstd::prelude::*;
use vstd::utf8::encode_utf8;

verus! {

/// The byte `\`, which identifiers write as `_`.
pub const BACKSLASH: u8 = 92;

/// The byte that replaces a backslash in an identifier.
pub const UNDERSCORE: u8 = 95;

/// The byte between the parts of an identifier.
pub const SEPARATOR: u8 = 45;

/// A LaTeX symbol: the command that typesets it, the package that provides
/// it, its font encoding, and the modes in which it may be used.
#[derive(Debug, Clone, PartialEq, Eq)]
pub struct Symbol {
    /// Command to display the symbol.
    pub command: String,
    /// Package which the symbol belongs to.
    pub package: String,
    /// Font encoding used for the symbol.
    pub font_encoding: String,
    /// Whether the symbol is available in text mode.
    pub text_mode: bool,
    /// Whether the symbol is available in math mode.
    pub math_mode: bool,
}

/// `bytes` with every backslash replaced by an underscore.
pub open spec fn escape_backslashes(bytes: Seq<u8>) -> Seq<u8> {
    Seq::new(bytes.len(), |i: int| if bytes[i] == BACKSLASH { UNDERSCORE } else { bytes[i] })
}

/// The text that an identifier encodes: `package-font_encoding-command`, all
/// as UTF-8, with the command's backslashes replaced by underscores.
pub open spec fn id_text(package: Seq<char>, font_encoding: Seq<char>, command: Seq<char>) -> Seq<u8> {
    encode_utf8(package) + seq![SEPARATOR] + encode_utf8(font_encoding) + seq![SEPARATOR]
        + escape_backslashes(encode_utf8(command))
}

/// The identifier of the symbol with these three parts.
pub open spec fn id_of(package: Seq<char>, font_encoding: Seq<char>, command: Seq<char>) -> Seq<char> {
    base64_of(id_text(package, font_encoding, command))
}

impl Symbol {
    /// The identifier of this symbol, as characters.
    pub open spec fn spec_id(&self) -> Seq<char> {
        id_of(self.package@, self.font_encoding@, self.command@)
    }

    /// Creates a symbol from its parts.
    pub fn new(command: &str, package: &str, font_encoding: &str, text_mode: bool, math_mode: bool) -> (r: Symbol)
        ensures
            r.command@ == command@,
            r.package@ == package@,
            r.font_encoding@ == font_encoding@,
            r.text_mode == text_mode,
            r.math_mode == math_mode,
    {
        Symbol {
            command: command.to_owned(),
            package: package.to_owned(),
            font_encoding: font_encoding.to_owned(),
            text_mode,
            math_mode,
        }
    }

    /// The modes in which the symbol may be used, as shown to a user.
    pub open spec fn spec_mode_label(&self) -> Seq<char> {
        if self.math_mode && self.text_mode {
            "mathmode & textmode"@
        } else if self.text_mode {
            "textmode"@
        } else if self.math_mode {
            "mathmode"@
        } else {
            ""@
        }
    }

    /// Names the modes in which the symbol may be used.
    pub fn mode_label(&self) -> (r: &'static str)
        ensures
            r@ == self.spec_mode_label(),
    {
        match (self.math_mode, self.text_mode) {
            (true, true) => "mathmode & textmode",
            (false, true) => "textmode",
            (true, false) => "mathmode",
            (false, false) => "",
        }
    }

    /// A field-by-field copy of the symbol.
    pub fn duplicate(&self) -> (r: Symbol)
        ensures
            r == *self,
    {
        Symbol {
            command: self.command.clone(),
            package: self.package.clone(),
            font_encoding: self.font_encoding.clone(),
            text_mode: self.text_mode,
            math_mode: self.math_mode,
        }
    }

    /// Returns the stable identifier of the symbol: the base64 encoding of
    /// `package-font_encoding-command`, with backslashes in the command
    /// written as underscores.
    pub fn id(&self) -> (r: String)
        ensures
            r@ == self.spec_id(),
    {
        let mut text: Vec<u8> = Vec::new();
        append_bytes(&mut text, self.package.as_str().as_bytes(), false);
        text.push(SEPARATOR);
        append_bytes(&mut text, self.font_encoding.as_str().as_bytes(), false);
        text.push(SEPARATOR);
        append_bytes(&mut text, self.command.as_str().as_bytes(), true);
        proof {
            assert(text@ =~= id_text(self.package@, self.font_encoding@, self.command@));
        }
        encode_base64(text.as_slice())
    }
}

/// Appends `src` to `dst`, writing backslashes as underscores when `escape`
/// is set.
fn append_bytes(dst: &mut Vec<u8>, src: &[u8], escape: bool)
    ensures
        final(dst)@ == old(dst)@ + if escape { escape_backslashes(src@) } else { src@ },
{
    let ghost start = dst@;
    let ghost added = if escape { escape_backslashes(src@) } else { src@ };
    let mut i: usize = 0;
    while i < src.len()
        invariant
            i <= src@.len(),
            added == if escape { escape_backslashes(src@) } else { src@ },
            added.len() == src@.len(),
            dst@ =~= start + added.subrange(0, i as int),
        decreases src@.len() - i,
    {
        let b = src[i];
        proof {
            assert(b == src@[i as int]);
            assert(added[i as int] == if escape && b == BACKSLASH { UNDERSCORE } else { b });
            assert(added.subrange(0, i + 1) =~= added.subrange(0, i as int).push(added[i as int]));
        }
        if escape && b == BACKSLASH {
            dst.push(UNDERSCORE);
        } else {
            dst.push(b);
        }
        i = i + 1;
    }
    assert(added.subrange(0, src@.len() as int) =~= added);
}

} // verus!
