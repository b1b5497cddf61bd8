//! Viewer session state and its pure update logic: byte selection, the
//! in-progress byte editor, jump-to and search panels, popups, and the
//! small parsing and formatting helpers the front ends share. All of it is
//! plain data passed through pure update functions; drawing stays outside.

use vstd::prelude::*;
use vstd::string::StringSliceAdditionalSpecFns;

verus! {

use crate::record::{is_hex_digit, hex_val};

/// Byte order used when interpreting selected bytes.
#[derive(Copy, Clone, Debug, PartialEq, Eq, Structural)]
pub enum Endianness {
    Little,
    Big,
}

impl Default for Endianness {
    fn default() -> (r: Self)
        ensures
            r == Endianness::Little,
    {
        Endianness::Little
    }
}

/// A range of selected byte addresses; inverted when the selection moved
/// right to left.
#[derive(Debug)]
pub struct Selection {
    /// Start and end addresses of the selected bytes.
    pub range: Option<[usize; 2]>,
    /// Has the pointer been released since the selection began?
    pub released: bool,
}

impl Default for Selection {
    fn default() -> (r: Self)
        ensures
            r.range is None,
            !r.released,
    {
        Selection { range: None, released: false }
    }
}

impl Selection {
    /// Is the address inside the selected range, whichever way the
    /// selection runs?
    pub fn is_addr_within_range(&self, addr: usize) -> (r: bool)
        ensures
            r == (match self.range {
                Some(range) => (range[0] <= addr && addr <= range[1]) || (range[1] <= addr
                    && addr <= range[0]),
                None => false,
            }),
    {
        match self.range {
            Some(range) => {
                if range[0] < range[1] {
                    range[0] <= addr && range[1] >= addr
                } else {
                    range[1] <= addr && range[0] >= addr
                }
            },
            None => false,
        }
    }

    /// Extend the selection to an address: a fresh selection starts there,
    /// an ongoing one moves its far end there.
    pub fn update(&mut self, addr: usize)
        ensures
            !final(self).released,
            final(self).range == (match old(self).range {
                Some(r) => {
                    if old(self).released {
                        Some([addr, addr])
                    } else {
                        Some([r[0], addr])
                    }
                },
                None => Some([addr, addr]),
            }),
    {
        if self.released {
            self.released = false;
            self.range = None;
        }
        match self.range {
            Some(r) => {
                self.range = Some([r[0], addr]);
            },
            None => {
                self.range = Some([addr, addr]);
            },
        }
    }

    /// Drop the selection.
    pub fn clear(&mut self)
        ensures
            final(self).range is None,
            !final(self).released,
    {
        self.range = None;
        self.released = false;
    }

    /// Is exactly one byte selected?
    pub fn is_single_byte(&self) -> (r: bool)
        ensures
            r == (match self.range {
                Some(range) => range[0] == range[1],
                None => false,
            }),
    {
        match self.range {
            Some(range) => range[0] == range[1],
            None => false,
        }
    }
}

/// The in-progress byte edit of a session: which addresses are being
/// edited, the hex characters typed so far, and the original values of
/// bytes already modified.
#[derive(Debug)]
pub struct ByteEdit {
    /// Is a byte being edited?
    pub in_progress: bool,
    /// Typed hex characters awaiting a full byte.
    pub buffer: String,
    /// Address range of the bytes being edited.
    pub addr: Option<[usize; 2]>,
    /// Original values of modified bytes, by address.
    pub modified: Vec<(usize, u8)>,
}

impl Default for ByteEdit {
    fn default() -> (r: Self)
        ensures
            !r.in_progress,
            r.buffer@.len() == 0,
            r.addr is None,
            r.modified@.len() == 0,
    {
        ByteEdit { in_progress: false, buffer: String::new(), addr: None, modified: Vec::new() }
    }
}

impl ByteEdit {
    /// Reset the editor when an edit completes or is cancelled; the record
    /// of modified bytes survives for a later restore.
    pub fn clear(&mut self)
        ensures
            !final(self).in_progress,
            final(self).addr is None,
            final(self).buffer@.len() == 0,
            final(self).modified == old(self).modified,
    {
        self.in_progress = false;
        self.addr = None;
        self.buffer = String::new();
    }
}

/// The single-byte editor of the simpler viewer: one address at a time.
#[derive(Debug)]
pub struct Editor {
    /// Is a byte being edited?
    pub in_progress: bool,
    /// Typed hex characters awaiting a full byte.
    pub buffer: String,
    /// Address of the byte being edited.
    pub addr: usize,
}

impl Default for Editor {
    fn default() -> (r: Self)
        ensures
            !r.in_progress,
            r.buffer@.len() == 0,
            r.addr == 0,
    {
        Editor { in_progress: false, buffer: String::new(), addr: 0 }
    }
}

impl Editor {
    /// Reset the editor when an edit completes or is cancelled.
    pub fn clear(&mut self)
        ensures
            !final(self).in_progress,
            final(self).addr == 0,
            final(self).buffer@.len() == 0,
    {
        self.in_progress = false;
        self.addr = 0;
        self.buffer = String::new();
    }

    /// Is the given address the one being edited?
    pub fn is_addr_same(&self, addr: usize) -> (r: bool)
        ensures
            r == (addr == self.addr),
    {
        addr == self.addr
    }
}

/// The jump-to-address panel's state.
#[derive(Debug)]
pub struct JumpTo {
    /// Does the text field have focus?
    pub has_focus: bool,
    /// Address to jump to, once entered.
    pub addr: Option<usize>,
    /// The text typed so far.
    pub input: String,
    /// Should the text field surrender focus on the next frame?
    pub loose_focus: bool,
}

impl Default for JumpTo {
    fn default() -> (r: Self)
        ensures
            !r.has_focus,
            r.addr is None,
            r.input@.len() == 0,
            !r.loose_focus,
    {
        JumpTo { has_focus: false, addr: None, input: String::new(), loose_focus: false }
    }
}

impl JumpTo {
    /// Ask the text field to surrender focus.
    pub fn loose_focus(&mut self)
        ensures
            *final(self) == (JumpTo { loose_focus: true, ..*old(self) }),
    {
        self.loose_focus = true;
    }
}

/// What a popup window shows.
#[derive(Clone, Copy, Debug, PartialEq, Eq, Structural)]
pub enum PopupType {
    Error,
    About,
    ReAddr,
}

impl PopupType {
    /// The window title for this kind of popup.
    pub fn title(&self) -> (r: &'static str)
        ensures
            (match self {
                PopupType::Error => r@ == "Error"@,
                PopupType::About => r@ == "About"@,
                PopupType::ReAddr => r@ == "Re-Address"@,
            }),
    {
        match self {
            PopupType::Error => "Error",
            PopupType::About => "About",
            PopupType::ReAddr => "Re-Address",
        }
    }
}

/// The modal popup's state.
#[derive(Debug)]
pub struct Popup {
    /// Is a popup showing?
    pub active: bool,
    /// What kind of popup, if any.
    pub ptype: Option<PopupType>,
    /// Text field content inside the popup, where one exists.
    pub text_input: String,
}

impl Default for Popup {
    fn default() -> (r: Self)
        ensures
            !r.active,
            r.ptype is None,
            r.text_input@.len() == 0,
    {
        Popup { active: false, ptype: None, text_input: String::new() }
    }
}

impl Popup {
    /// Dismiss the popup; typed text survives until its owner clears it.
    pub fn clear(&mut self)
        ensures
            !final(self).active,
            final(self).ptype is None,
            final(self).text_input == old(self).text_input,
    {
        self.active = false;
        self.ptype = None;
    }
}

/// One search request: the typed pattern and whether it is read as ASCII
/// text rather than hex bytes.
#[derive(Debug)]
pub struct SearchState {
    /// The text typed into the search field.
    pub input: String,
    /// Is the text an ASCII pattern rather than hex digits?
    pub is_ascii: bool,
}

impl Default for SearchState {
    fn default() -> (r: Self)
        ensures
            r.input@.len() == 0,
            !r.is_ascii,
    {
        SearchState { input: String::new(), is_ascii: false }
    }
}

impl SearchState {
    /// A copy carrying the same request.
    pub fn duplicate(&self) -> (r: SearchState)
        ensures
            r.input@ == self.input@,
            r.is_ascii == self.is_ascii,
    {
        SearchState { input: self.input.clone(), is_ascii: self.is_ascii }
    }
}

/// The search panel's state: results of the last search and the input
/// handling flags around the text field.
#[derive(Debug)]
pub struct Search {
    /// Address of the result currently scrolled to.
    pub addr: Option<usize>,
    /// Addresses where the pattern matched.
    pub results: Vec<usize>,
    /// Length of the search pattern, in bytes.
    pub length: usize,
    /// Does the search text field have focus?
    pub has_focus: bool,
    /// Index of the current result within `results`.
    pub idx: usize,
    /// Run the search again even though the input has not changed.
    pub force: bool,
    /// Should the text field surrender focus on the next frame?
    pub loose_focus: bool,
    /// The request being typed.
    pub current: SearchState,
    /// The last request searched, to detect changed input.
    pub last: SearchState,
}

impl Default for Search {
    fn default() -> (r: Self)
        ensures
            r.addr is None,
            r.results@.len() == 0,
            r.length == 0,
            !r.has_focus,
            r.idx == 0,
            !r.force,
            !r.loose_focus,
            r.current.input@.len() == 0,
            r.last.input@.len() == 0,
    {
        Search {
            addr: None,
            results: Vec::new(),
            length: 0,
            has_focus: false,
            idx: 0,
            force: false,
            loose_focus: false,
            current: SearchState::default(),
            last: SearchState::default(),
        }
    }
}

impl Search {
    /// Drop the search results and flags; the typed text survives so the
    /// text box keeps its content.
    pub fn clear(&mut self)
        ensures
            !final(self).has_focus,
            final(self).addr is None,
            final(self).results@.len() == 0,
            final(self).length == 0,
            final(self).last.input@.len() == 0,
            !final(self).last.is_ascii,
            final(self).idx == 0,
            !final(self).force,
            final(self).current == old(self).current,
            final(self).loose_focus == old(self).loose_focus,
    {
        self.has_focus = false;
        self.addr = None;
        self.results = Vec::new();
        self.length = 0;
        self.last = SearchState::default();
        self.idx = 0;
        self.force = false;
    }

    /// Redo the last search: restore the last searched request into the
    /// input, clear the results, and force the search to run again.
    pub fn redo(&mut self)
        ensures
            final(self).current.input@ == old(self).last.input@,
            final(self).current.is_ascii == old(self).last.is_ascii,
            final(self).results@.len() == 0,
            final(self).force,
    {
        self.current = self.last.duplicate();
        let kept = self.current.duplicate();
        self.clear();
        self.current = kept;
        self.force = true;
    }

    /// Ask the text field to surrender focus.
    pub fn loose_focus(&mut self)
        ensures
            *final(self) == (Search { loose_focus: true, ..*old(self) }),
    {
        self.loose_focus = true;
    }
}

// ===================== file sniffing and formatting =====================

/// What kind of file content looks like.
#[derive(Copy, Clone, Debug, PartialEq, Eq, Structural)]
pub enum FileKind {
    Hex,
    Bin,
    Elf,
    Unknown,
}

/// What kind of file its leading bytes announce.
pub open spec fn spec_file_kind(head: Seq<u8>) -> FileKind {
    if head.len() == 0 {
        FileKind::Unknown
    } else if head.len() >= 4 && head[0] == 0x7Fu8 && head[1] == 0x45u8 && head[2] == 0x4Cu8
        && head[3] == 0x46u8 {
        FileKind::Elf
    } else if head[0] == 0x3Au8 {
        FileKind::Hex
    } else {
        FileKind::Bin
    }
}

/// Classify file content by its leading bytes: the ELF magic, the Intel
/// HEX start marker, anything else raw binary, nothing at all unknown.
pub fn detect_file_kind(head: &[u8]) -> (r: FileKind)
    ensures
        r == spec_file_kind(head@),
{
    if head.len() == 0 {
        FileKind::Unknown
    } else if head.len() >= 4 && head[0] == 0x7Fu8 && head[1] == 0x45u8 && head[2] == 0x4Cu8
        && head[3] == 0x46u8 {
        FileKind::Elf
    } else if head[0] == 0x3Au8 {
        FileKind::Hex
    } else {
        FileKind::Bin
    }
}

/// A file format a session can be saved in.
#[derive(Copy, Clone, Debug, PartialEq, Eq, Structural)]
pub enum SaveFormat {
    Bin,
    Hex,
}

/// Lower-case an ASCII letter, leaving other bytes alone.
pub open spec fn ascii_lower(c: u8) -> u8 {
    if 0x41 <= c && c <= 0x5A {
        (c + 0x20) as u8
    } else {
        c
    }
}

/// Which save format a file extension denotes: `bin` or `hex`, compared
/// without regard to ASCII case.
pub open spec fn spec_format_from_extension(ext: Seq<u8>) -> Option<SaveFormat> {
    if ext.len() == 3 && ascii_lower(ext[0]) == 0x62u8 && ascii_lower(ext[1]) == 0x69u8
        && ascii_lower(ext[2]) == 0x6Eu8 {
        Some(SaveFormat::Bin)
    } else if ext.len() == 3 && ascii_lower(ext[0]) == 0x68u8 && ascii_lower(ext[1]) == 0x65u8
        && ascii_lower(ext[2]) == 0x78u8 {
        Some(SaveFormat::Hex)
    } else {
        None
    }
}

fn ascii_lower_exec(c: u8) -> (r: u8)
    ensures
        r == ascii_lower(c),
{
    if 0x41 <= c && c <= 0x5A {
        c + 0x20
    } else {
        c
    }
}

/// The save format a file extension (without its dot) denotes, if any.
pub fn format_from_extension(ext: &str) -> (r: Option<SaveFormat>)
    ensures
        r == spec_format_from_extension(ext.spec_bytes()),
{
    let b = ext.as_bytes();
    if b.len() != 3 {
        return None;
    }
    let c0 = ascii_lower_exec(b[0]);
    let c1 = ascii_lower_exec(b[1]);
    let c2 = ascii_lower_exec(b[2]);
    if c0 == 0x62u8 && c1 == 0x69u8 && c2 == 0x6Eu8 {
        Some(SaveFormat::Bin)
    } else if c0 == 0x68u8 && c1 == 0x65u8 && c2 == 0x78u8 {
        Some(SaveFormat::Hex)
    } else {
        None
    }
}

// ===================== number parsing and formatting =====================

/// The value of a hex digit string, folded left to right.
pub open spec fn hex_value_of(s: Seq<u8>) -> int
    decreases s.len(),
{
    if s.len() == 0 {
        0
    } else {
        hex_value_of(s.drop_last()) * 16 + hex_val(s.last())
    }
}

/// Are all bytes hex digits?
pub open spec fn all_hex(s: Seq<u8>) -> bool {
    forall|i: int| 0 <= i < s.len() ==> is_hex_digit(#[trigger] s[i])
}

/// Strip one leading `0x` or `0X`, if present.
pub open spec fn strip_hex_prefix(s: Seq<u8>) -> Seq<u8> {
    if s.len() >= 2 && s[0] == 0x30u8 && (s[1] == 0x78u8 || s[1] == 0x58u8) {
        s.skip(2)
    } else {
        s
    }
}

/// Parse a string as a hexadecimal number with an optional `0x` prefix:
/// `Some` exactly when at least one digit follows the prefix, every
/// character is a hex digit, and the value fits the address type.
pub fn parse_address(s: &str) -> (r: Option<usize>)
    ensures
        ({
            let d = strip_hex_prefix(s.spec_bytes());
            if d.len() > 0 && all_hex(d) && hex_value_of(d) <= usize::MAX {
                r == Some((hex_value_of(d) as usize))
            } else {
                r is None
            }
        }),
{
    let b = s.as_bytes();
    let start: usize = if b.len() >= 2 && b[0] == 0x30u8 && (b[1] == 0x78u8 || b[1] == 0x58u8) {
        2
    } else {
        0
    };
    let ghost d = strip_hex_prefix(s.spec_bytes());
    proof {
        assert(d =~= b@.skip(start as int));
    }
    if b.len() == start {
        return None;
    }
    let mut acc: usize = 0;
    let mut i: usize = start;
    while i < b.len()
        invariant
            start <= i <= b@.len(),
            b@ == s.spec_bytes(),
            d == strip_hex_prefix(s.spec_bytes()),
            d == b@.skip(start as int),
            d.len() == b@.len() - start,
            forall|q: int| start <= q < i ==> is_hex_digit(#[trigger] b@[q]),
            acc as int == hex_value_of(d.take(i - start)),
        decreases b@.len() - i,
    {
        let c = b[i];
        if !(0x30 <= c && c <= 0x39) && !(0x41 <= c && c <= 0x46) && !(0x61 <= c && c <= 0x66) {
            proof {
                assert(0 <= i - start < d.len());
                assert(d[i - start] == b@[i as int]);
                assert(!is_hex_digit(d[i - start]));
                assert(!all_hex(d));
            }
            return None;
        }
        let v: u8 = if c <= 0x39 {
            c - 0x30
        } else if c <= 0x46 {
            (c - 0x41) + 10
        } else {
            (c - 0x61) + 10
        };
        proof {
            assert(v == hex_val(b@[i as int]));
            assert(d.take(i - start + 1).drop_last() =~= d.take(i - start));
            assert(d.take(i - start + 1).last() == b@[i as int]);
            assert(hex_value_of(d.take(i - start + 1)) == acc as int * 16 + v as int);
        }
        let next = match acc.checked_mul(16) {
            Some(m) => m.checked_add(v as usize),
            None => None,
        };
        match next {
            Some(n) => {
                acc = n;
            },
            None => {
                // The next digit would push the value past the address type.
                proof {
                    lemma_hex_value_grows(d, i - start + 1, d.len() as int);
                    assert(d.take(d.len() as int) =~= d);
                    assert(hex_value_of(d) > usize::MAX);
                }
                return None;
            },
        }
        i = i + 1;
        proof {
            assert(d.take(i - start).drop_last() =~= d.take(i - start - 1));
            assert(d.take(i - start).last() == b@[i - 1]);
        }
    }
    proof {
        assert(d.take(d.len() as int) =~= d);
        assert(all_hex(d)) by {
            assert forall|q: int| 0 <= q < d.len() implies is_hex_digit(#[trigger] d[q]) by {
                assert(d[q] == b@[q + start]);
            }
        }
    }
    Some(acc)
}

/// A longer hex digit string never has a smaller value.
proof fn lemma_hex_value_grows(s: Seq<u8>, i: int, j: int)
    requires
        0 <= i <= j <= s.len(),
    ensures
        hex_value_of(s.take(i)) <= hex_value_of(s.take(j)),
    decreases j - i,
{
    if i < j {
        lemma_hex_value_grows(s, i, j - 1);
        assert(s.take(j).drop_last() =~= s.take(j - 1));
        lemma_hex_value_nonneg(s.take(j - 1));
        assert(hex_value_of(s.take(j)) == hex_value_of(s.take(j - 1)) * 16 + hex_val(
            s.take(j).last(),
        ));
    }
}

proof fn lemma_hex_value_nonneg(s: Seq<u8>)
    ensures
        hex_value_of(s) >= 0,
    decreases s.len(),
{
    if s.len() > 0 {
        lemma_hex_value_nonneg(s.drop_last());
    }
}

/// Parse a string as a hexadecimal number with an optional `0x` prefix,
/// reporting failure as an error value.
pub fn parse_hex_str(s: &str) -> (r: Result<usize, ()>)
    ensures
        ({
            let d = strip_hex_prefix(s.spec_bytes());
            if d.len() > 0 && all_hex(d) && hex_value_of(d) <= usize::MAX {
                r == Ok::<usize, ()>((hex_value_of(d) as usize))
            } else {
                r == Err::<usize, ()>(())
            }
        }),
{
    match parse_address(s) {
        Some(v) => Ok(v),
        None => Err(()),
    }
}

/// The bytes a search pattern string denotes: the text's own bytes when it
/// is an ASCII pattern, else the bytes its hex digit pairs encode.
pub fn parse_str_into_bytes(s: &str, is_ascii_repr: bool) -> (r: Option<Vec<u8>>)
    ensures
        ({
            let b = s.spec_bytes();
            if is_ascii_repr {
                match r {
                    Some(v) => v@ == b,
                    None => false,
                }
            } else if b.len() % 2 == 0 && all_hex(b) {
                match r {
                    Some(v) => v@.len() * 2 == b.len() && (forall|k: int|
                        0 <= k < v@.len() ==> (#[trigger] v@[k]) == crate::record::pair_val(
                            b[2 * k],
                            b[2 * k + 1],
                        )),
                    None => false,
                }
            } else {
                r is None
            }
        }),
{
    let b = s.as_bytes();
    if is_ascii_repr {
        let mut v: Vec<u8> = Vec::new();
        v.extend_from_slice(b);
        proof {
            assert(v@ =~= s.spec_bytes());
        }
        return Some(v);
    }
    if b.len() % 2 != 0 {
        return None;
    }
    let mut v: Vec<u8> = Vec::new();
    let mut i: usize = 0;
    while i < b.len()
        invariant
            !is_ascii_repr,
            b@ == s.spec_bytes(),
            b@.len() % 2 == 0,
            0 <= i <= b@.len(),
            i % 2 == 0,
            v@.len() * 2 == i,
            forall|q: int| 0 <= q < i ==> is_hex_digit(#[trigger] b@[q]),
            forall|k: int|
                0 <= k < v@.len() ==> (#[trigger] v@[k]) == crate::record::pair_val(
                    b@[2 * k],
                    b@[2 * k + 1],
                ),
        decreases b@.len() - i,
    {
        let c0 = b[i];
        let c1 = b[i + 1];
        let h0 = (0x30 <= c0 && c0 <= 0x39) || (0x41 <= c0 && c0 <= 0x46) || (0x61 <= c0 && c0
            <= 0x66);
        let h1 = (0x30 <= c1 && c1 <= 0x39) || (0x41 <= c1 && c1 <= 0x46) || (0x61 <= c1 && c1
            <= 0x66);
        if !h0 || !h1 {
            proof {
                assert(!is_hex_digit(b@[i as int]) || !is_hex_digit(b@[i as int + 1]));
                assert(!all_hex(b@));
            }
            return None;
        }
        let v0: u8 = if c0 <= 0x39 {
            c0 - 0x30
        } else if c0 <= 0x46 {
            (c0 - 0x41) + 10
        } else {
            (c0 - 0x61) + 10
        };
        let v1: u8 = if c1 <= 0x39 {
            c1 - 0x30
        } else if c1 <= 0x46 {
            (c1 - 0x41) + 10
        } else {
            (c1 - 0x61) + 10
        };
        v.push(v0 * 16 + v1);
        i = i + 2;
    }
    proof {
        assert(all_hex(b@));
    }
    Some(v)
}

/// The digit characters with a comma inserted after every group of three,
/// counted from the right.
pub open spec fn grouped_digits(d: Seq<u8>) -> Seq<u8>
    decreases d.len(),
{
    if d.len() <= 3 {
        d
    } else {
        grouped_digits(d.take(d.len() - 3)) + seq![0x2Cu8] + d.skip(d.len() - 3)
    }
}

fn group_digits(d: &[u8]) -> (r: Vec<u8>)
    ensures
        r@ == grouped_digits(d@),
    decreases d@.len(),
{
    if d.len() <= 3 {
        let mut out: Vec<u8> = Vec::new();
        out.extend_from_slice(d);
        proof {
            assert(out@ =~= d@);
        }
        out
    } else {
        let cut = d.len() - 3;
        let mut out = group_digits(&d[0..cut]);
        proof {
            assert(d@.subrange(0, cut as int) =~= d@.take(cut as int));
        }
        out.push(0x2Cu8);
        let mut rest: Vec<u8> = Vec::new();
        rest.extend_from_slice(&d[cut..d.len()]);
        out.append(&mut rest);
        proof {
            assert(d@.subrange(cut as int, d@.len() as int) =~= d@.skip(cut as int));
            assert(out@ =~= grouped_digits(d@));
        }
        out
    }
}

/// Format an already rendered number with comma separators every three
/// digits, a leading minus sign kept in front.
pub fn format_with_separators(s: &str) -> (r: String)
    requires
        forall|i: int| 0 <= i < s.spec_bytes().len() ==> s.spec_bytes()[i] < 0x80,
    ensures
        ({
            let b = s.spec_bytes();
            if b.len() > 0 && b[0] == 0x2Du8 {
                r@ == crate::record::ascii_chars(seq![0x2Du8] + grouped_digits(b.skip(1)))
            } else {
                r@ == crate::record::ascii_chars(grouped_digits(b))
            }
        }),
{
    let b = s.as_bytes();
    let mut out: Vec<u8> = Vec::new();
    if b.len() > 0 && b[0] == 0x2Du8 {
        out.push(0x2Du8);
        let mut rest: Vec<u8> = Vec::new();
        rest.extend_from_slice(&b[1..b.len()]);
        proof {
            assert(rest@ =~= b@.skip(1));
        }
        let mut grouped = group_digits(rest.as_slice());
        out.append(&mut grouped);
        proof {
            assert(out@ =~= seq![0x2Du8] + grouped_digits(b@.skip(1)));
            assert forall|q: int| 0 <= q < b@.skip(1).len() implies (#[trigger] b@.skip(1)[q])
                < 0x80 by {
                assert(b@.skip(1)[q] == s.spec_bytes()[q + 1]);
            }
            lemma_grouped_ascii(b@.skip(1));
        }
        crate::record::string_from_ascii(out)
    } else {
        let mut grouped = group_digits(b);
        out.append(&mut grouped);
        proof {
            assert(out@ =~= grouped_digits(b@));
            assert forall|q: int| 0 <= q < b@.len() implies (#[trigger] b@[q]) < 0x80 by {
                assert(b@[q] == s.spec_bytes()[q]);
            }
            lemma_grouped_ascii(b@);
        }
        crate::record::string_from_ascii(out)
    }
}

/// Grouping ASCII digits only rearranges ASCII bytes.
proof fn lemma_grouped_ascii(d: Seq<u8>)
    requires
        forall|i: int| 0 <= i < d.len() ==> (#[trigger] d[i]) < 0x80,
    ensures
        forall|i: int| 0 <= i < grouped_digits(d).len() ==> (#[trigger] grouped_digits(d)[i])
            < 0x80,
    decreases d.len(),
{
    if d.len() > 3 {
        assert forall|i: int|
            0 <= i < d.take(d.len() - 3).len() implies (#[trigger] d.take(d.len() - 3)[i])
            < 0x80 by {
            assert(d.take(d.len() - 3)[i] == d[i]);
        }
        lemma_grouped_ascii(d.take(d.len() - 3));
        let g = grouped_digits(d.take(d.len() - 3));
        assert(grouped_digits(d) == g + seq![0x2Cu8] + d.skip(d.len() - 3));
        assert forall|i: int|
            0 <= i < grouped_digits(d).len() implies (#[trigger] grouped_digits(d)[i]) < 0x80 by {
            if i < g.len() {
                assert(grouped_digits(d)[i] == g[i]);
            } else if i == g.len() {
                assert(grouped_digits(d)[i] == 0x2Cu8);
            } else {
                assert(grouped_digits(d)[i] == d.skip(d.len() - 3)[i - g.len() - 1]);
                assert(d.skip(d.len() - 3)[i - g.len() - 1] == d[i - g.len() - 1 + d.len() - 3]);
            }
        }
    }
}

} // verus!
