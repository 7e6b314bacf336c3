//! Keyboard layouts: which layout a name or a Windows layout number stands for, and
//! which keystroke types a character.
use crate::text::{
    chars_of, concat2, lower, parse_hex32, same, string_of, strip_prefix, trim,
};
use vstd::prelude::*;

verus! {

/// The keys whose meaning depends on the layout: the typing block, without Return,
/// Tab and Space.
pub open spec fn translatable(vk: u16) -> bool {
    vk <= 0x32 && vk != 0x24 && vk != 0x30 && vk != 0x31
}

pub fn is_translatable_keycode(vk: u16) -> (r: bool)
    ensures
        r == translatable(vk),
{
    vk <= 0x32 && vk != 0x24 && vk != 0x30 && vk != 0x31
}

/// A Windows layout number: one to eight hexadecimal digits, after `0x` or without.
pub open spec fn klid_of(s: Seq<char>) -> Option<u32> {
    let t = match crate::text::after_prefix(s, "0x"@) {
        Some(rest) => rest,
        None => match crate::text::after_prefix(s, "0X"@) {
            Some(rest) => rest,
            None => s,
        },
    };
    if 0 < t.len() <= 8 && crate::text::all_hex(t) {
        Some(crate::text::hex_value(t) as u32)
    } else {
        None
    }
}

fn parse_klid_chars(v: &Vec<char>) -> (r: Option<u32>)
    ensures
        r == klid_of(v@),
{
    match strip_prefix(v, "0x") {
        Some(rest) => parse_hex32(&rest),
        None => match strip_prefix(v, "0X") {
            Some(rest) => parse_hex32(&rest),
            None => parse_hex32(v),
        },
    }
}

/// Whether a text, in whatever letters, is the name of a layout.
pub open spec fn names_layout(spec: Seq<char>) -> bool {
    let low = crate::text::lowered(spec);
    named_source(low) is Some || named_language(low) is Some
}

pub open spec fn layout_number(spec: Seq<char>) -> Option<u32> {
    if names_layout(spec) {
        None
    } else {
        klid_of(spec)
    }
}

/// The Windows layout number that a text holds. The name of a layout holds none, even one
/// made of hexadecimal digits, such as `de`.
pub fn parse_klid(spec: &str) -> (r: Option<u32>)
    ensures
        r == layout_number(spec@),
{
    let v: Vec<char> = chars_of(spec);
    let low: Vec<char> = lower(&v);
    if name_to_source_id(&low).is_some() || name_to_language(&low).is_some() {
        return None;
    }
    parse_klid_chars(&v)
}

/// The input source that a short name stands for.
pub open spec fn named_source(low: Seq<char>) -> Option<Seq<char>> {
    if low == "us"@ || low == "en"@ || low == "english"@ || low == "ansi"@ {
        Some("com.apple.keylayout.US"@)
    } else if low == "uk"@ || low == "gb"@ || low == "british"@ {
        Some("com.apple.keylayout.British"@)
    } else if low == "fr"@ || low == "french"@ || low == "azerty"@ {
        Some("com.apple.keylayout.French"@)
    } else if low == "de"@ || low == "german"@ || low == "qwertz"@ {
        Some("com.apple.keylayout.German"@)
    } else if low == "es"@ || low == "spanish"@ {
        Some("com.apple.keylayout.Spanish-ISO"@)
    } else if low == "it"@ || low == "italian"@ {
        Some("com.apple.keylayout.Italian"@)
    } else if low == "pt"@ || low == "portuguese"@ {
        Some("com.apple.keylayout.Portuguese"@)
    } else if low == "br"@ || low == "brazilian"@ {
        Some("com.apple.keylayout.Brazilian"@)
    } else if low == "nl"@ || low == "dutch"@ {
        Some("com.apple.keylayout.Dutch"@)
    } else if low == "be"@ || low == "belgian"@ {
        Some("com.apple.keylayout.Belgian"@)
    } else if low == "se"@ || low == "swedish"@ {
        Some("com.apple.keylayout.Swedish"@)
    } else if low == "no"@ || low == "norwegian"@ {
        Some("com.apple.keylayout.Norwegian"@)
    } else if low == "dk"@ || low == "danish"@ {
        Some("com.apple.keylayout.Danish"@)
    } else if low == "fi"@ || low == "finnish"@ {
        Some("com.apple.keylayout.Finnish"@)
    } else if low == "ru"@ || low == "russian"@ {
        Some("com.apple.keylayout.Russian"@)
    } else if low == "pl"@ || low == "polish"@ {
        Some("com.apple.keylayout.Polish"@)
    } else if low == "cz"@ || low == "czech"@ {
        Some("com.apple.keylayout.Czech"@)
    } else if low == "hu"@ || low == "hungarian"@ {
        Some("com.apple.keylayout.Hungarian"@)
    } else if low == "ch"@ || low == "swiss"@ || low == "swissgerman"@ {
        Some("com.apple.keylayout.SwissGerman"@)
    } else {
        None
    }
}

/// The input source that a short name in small letters stands for.
pub fn name_to_source_id(low: &Vec<char>) -> (r: Option<&'static str>)
    ensures
        r is Some <==> named_source(low@) is Some,
        r matches Some(s) ==> named_source(low@) == Some(s@),
{
    if same(low, "us") || same(low, "en") || same(low, "english") || same(low, "ansi") {
        Some("com.apple.keylayout.US")
    } else if same(low, "uk") || same(low, "gb") || same(low, "british") {
        Some("com.apple.keylayout.British")
    } else if same(low, "fr") || same(low, "french") || same(low, "azerty") {
        Some("com.apple.keylayout.French")
    } else if same(low, "de") || same(low, "german") || same(low, "qwertz") {
        Some("com.apple.keylayout.German")
    } else if same(low, "es") || same(low, "spanish") {
        Some("com.apple.keylayout.Spanish-ISO")
    } else if same(low, "it") || same(low, "italian") {
        Some("com.apple.keylayout.Italian")
    } else if same(low, "pt") || same(low, "portuguese") {
        Some("com.apple.keylayout.Portuguese")
    } else if same(low, "br") || same(low, "brazilian") {
        Some("com.apple.keylayout.Brazilian")
    } else if same(low, "nl") || same(low, "dutch") {
        Some("com.apple.keylayout.Dutch")
    } else if same(low, "be") || same(low, "belgian") {
        Some("com.apple.keylayout.Belgian")
    } else if same(low, "se") || same(low, "swedish") {
        Some("com.apple.keylayout.Swedish")
    } else if same(low, "no") || same(low, "norwegian") {
        Some("com.apple.keylayout.Norwegian")
    } else if same(low, "dk") || same(low, "danish") {
        Some("com.apple.keylayout.Danish")
    } else if same(low, "fi") || same(low, "finnish") {
        Some("com.apple.keylayout.Finnish")
    } else if same(low, "ru") || same(low, "russian") {
        Some("com.apple.keylayout.Russian")
    } else if same(low, "pl") || same(low, "polish") {
        Some("com.apple.keylayout.Polish")
    } else if same(low, "cz") || same(low, "czech") {
        Some("com.apple.keylayout.Czech")
    } else if same(low, "hu") || same(low, "hungarian") {
        Some("com.apple.keylayout.Hungarian")
    } else if same(low, "ch") || same(low, "swiss") || same(low, "swissgerman") {
        Some("com.apple.keylayout.SwissGerman")
    } else {
        None
    }
}

/// The input source of a Windows layout, by the lower half of its number.
pub open spec fn numbered_source(layout: u32) -> Option<Seq<char>> {
    if layout == 0x0409 {
        Some("com.apple.keylayout.US"@)
    } else if layout == 0x0809 {
        Some("com.apple.keylayout.British"@)
    } else if layout == 0x040C {
        Some("com.apple.keylayout.French"@)
    } else if layout == 0x080C {
        Some("com.apple.keylayout.Belgian"@)
    } else if layout == 0x0C0C {
        Some("com.apple.keylayout.Canadian-CSA"@)
    } else if layout == 0x0407 {
        Some("com.apple.keylayout.German"@)
    } else if layout == 0x0807 {
        Some("com.apple.keylayout.SwissGerman"@)
    } else if layout == 0x040A {
        Some("com.apple.keylayout.Spanish-ISO"@)
    } else if layout == 0x0410 {
        Some("com.apple.keylayout.Italian"@)
    } else if layout == 0x0413 {
        Some("com.apple.keylayout.Dutch"@)
    } else if layout == 0x0813 {
        Some("com.apple.keylayout.Belgian"@)
    } else if layout == 0x0416 {
        Some("com.apple.keylayout.Brazilian"@)
    } else if layout == 0x0816 {
        Some("com.apple.keylayout.Portuguese"@)
    } else if layout == 0x041D {
        Some("com.apple.keylayout.Swedish"@)
    } else if layout == 0x0414 {
        Some("com.apple.keylayout.Norwegian"@)
    } else if layout == 0x0406 {
        Some("com.apple.keylayout.Danish"@)
    } else if layout == 0x040B {
        Some("com.apple.keylayout.Finnish"@)
    } else if layout == 0x0419 {
        Some("com.apple.keylayout.Russian"@)
    } else if layout == 0x0415 {
        Some("com.apple.keylayout.Polish"@)
    } else if layout == 0x0405 {
        Some("com.apple.keylayout.Czech"@)
    } else if layout == 0x040E {
        Some("com.apple.keylayout.Hungarian"@)
    } else {
        None
    }
}

/// The input source of a Windows layout number. Only its lower half counts.
pub fn klid_to_source_id(klid: u32) -> (r: Option<&'static str>)
    ensures
        r is Some <==> numbered_source(klid % 0x1_0000) is Some,
        r matches Some(s) ==> numbered_source(klid % 0x1_0000) == Some(s@),
{
    assert(klid & 0xFFFF == klid % 0x1_0000) by (bit_vector);
    match klid & 0xFFFF {
        0x0409 => Some("com.apple.keylayout.US"),
        0x0809 => Some("com.apple.keylayout.British"),
        0x040C => Some("com.apple.keylayout.French"),
        0x080C => Some("com.apple.keylayout.Belgian"),
        0x0C0C => Some("com.apple.keylayout.Canadian-CSA"),
        0x0407 => Some("com.apple.keylayout.German"),
        0x0807 => Some("com.apple.keylayout.SwissGerman"),
        0x040A => Some("com.apple.keylayout.Spanish-ISO"),
        0x0410 => Some("com.apple.keylayout.Italian"),
        0x0413 => Some("com.apple.keylayout.Dutch"),
        0x0813 => Some("com.apple.keylayout.Belgian"),
        0x0416 => Some("com.apple.keylayout.Brazilian"),
        0x0816 => Some("com.apple.keylayout.Portuguese"),
        0x041D => Some("com.apple.keylayout.Swedish"),
        0x0414 => Some("com.apple.keylayout.Norwegian"),
        0x0406 => Some("com.apple.keylayout.Danish"),
        0x040B => Some("com.apple.keylayout.Finnish"),
        0x0419 => Some("com.apple.keylayout.Russian"),
        0x0415 => Some("com.apple.keylayout.Polish"),
        0x0405 => Some("com.apple.keylayout.Czech"),
        0x040E => Some("com.apple.keylayout.Hungarian"),
        _ => None,
    }
}

/// The input source that a layout setting stands for: by name first, then by number.
pub open spec fn source_of(spec: Seq<char>) -> Option<Seq<char>> {
    let low = crate::text::lowered(spec);
    match named_source(low) {
        Some(id) => Some(id),
        None => match klid_of(low) {
            Some(klid) => numbered_source(klid % 0x1_0000),
            None => None,
        },
    }
}

fn source_of_chars(spec: &Vec<char>) -> (r: Option<&'static str>)
    ensures
        r is Some <==> source_of(spec@) is Some,
        r matches Some(s) ==> source_of(spec@) == Some(s@),
{
    let low: Vec<char> = lower(spec);
    match name_to_source_id(&low) {
        Some(id) => Some(id),
        None => match parse_klid_chars(&low) {
            Some(klid) => klid_to_source_id(klid),
            None => None,
        },
    }
}

pub fn spec_to_source_id(spec: &str) -> (r: Option<&'static str>)
    ensures
        r is Some <==> source_of(spec@) is Some,
        r matches Some(s) ==> source_of(spec@) == Some(s@),
{
    let v: Vec<char> = chars_of(spec);
    source_of_chars(&v)
}

/// The language that a short name stands for.
pub open spec fn named_language(low: Seq<char>) -> Option<Seq<char>> {
    if low == "us"@ || low == "en"@ || low == "english"@ || low == "uk"@ || low == "gb"@
        || low == "british"@ {
        Some("en"@)
    } else if low == "fr"@ || low == "french"@ || low == "azerty"@ {
        Some("fr"@)
    } else if low == "de"@ || low == "german"@ || low == "qwertz"@ || low == "ch"@
        || low == "swiss"@ || low == "swissgerman"@ {
        Some("de"@)
    } else if low == "es"@ || low == "spanish"@ {
        Some("es"@)
    } else if low == "it"@ || low == "italian"@ {
        Some("it"@)
    } else if low == "pt"@ || low == "portuguese"@ || low == "br"@ || low == "brazilian"@ {
        Some("pt"@)
    } else if low == "nl"@ || low == "dutch"@ || low == "be"@ || low == "belgian"@ {
        Some("nl"@)
    } else if low == "se"@ || low == "swedish"@ {
        Some("sv"@)
    } else if low == "no"@ || low == "norwegian"@ {
        Some("nb"@)
    } else if low == "dk"@ || low == "danish"@ {
        Some("da"@)
    } else if low == "fi"@ || low == "finnish"@ {
        Some("fi"@)
    } else if low == "ru"@ || low == "russian"@ {
        Some("ru"@)
    } else if low == "pl"@ || low == "polish"@ {
        Some("pl"@)
    } else if low == "cz"@ || low == "czech"@ {
        Some("cs"@)
    } else if low == "hu"@ || low == "hungarian"@ {
        Some("hu"@)
    } else {
        None
    }
}

/// The language that a short name in small letters stands for.
pub fn name_to_language(low: &Vec<char>) -> (r: Option<&'static str>)
    ensures
        r is Some <==> named_language(low@) is Some,
        r matches Some(s) ==> named_language(low@) == Some(s@),
{
    if same(low, "us") || same(low, "en") || same(low, "english") || same(low, "uk")
        || same(low, "gb") || same(low, "british") {
        Some("en")
    } else if same(low, "fr") || same(low, "french") || same(low, "azerty") {
        Some("fr")
    } else if same(low, "de") || same(low, "german") || same(low, "qwertz") || same(low, "ch")
        || same(low, "swiss") || same(low, "swissgerman") {
        Some("de")
    } else if same(low, "es") || same(low, "spanish") {
        Some("es")
    } else if same(low, "it") || same(low, "italian") {
        Some("it")
    } else if same(low, "pt") || same(low, "portuguese") || same(low, "br")
        || same(low, "brazilian") {
        Some("pt")
    } else if same(low, "nl") || same(low, "dutch") || same(low, "be") || same(low, "belgian") {
        Some("nl")
    } else if same(low, "se") || same(low, "swedish") {
        Some("sv")
    } else if same(low, "no") || same(low, "norwegian") {
        Some("nb")
    } else if same(low, "dk") || same(low, "danish") {
        Some("da")
    } else if same(low, "fi") || same(low, "finnish") {
        Some("fi")
    } else if same(low, "ru") || same(low, "russian") {
        Some("ru")
    } else if same(low, "pl") || same(low, "polish") {
        Some("pl")
    } else if same(low, "cz") || same(low, "czech") {
        Some("cs")
    } else if same(low, "hu") || same(low, "hungarian") {
        Some("hu")
    } else {
        None
    }
}

/// The language of a Windows layout, by its primary language number.
pub open spec fn numbered_language(language: u32) -> Option<Seq<char>> {
    if language == 0x09 {
        Some("en"@)
    } else if language == 0x0C {
        Some("fr"@)
    } else if language == 0x07 {
        Some("de"@)
    } else if language == 0x0A {
        Some("es"@)
    } else if language == 0x10 {
        Some("it"@)
    } else if language == 0x16 {
        Some("pt"@)
    } else if language == 0x13 {
        Some("nl"@)
    } else if language == 0x1D {
        Some("sv"@)
    } else if language == 0x14 {
        Some("nb"@)
    } else if language == 0x06 {
        Some("da"@)
    } else if language == 0x0B {
        Some("fi"@)
    } else if language == 0x19 {
        Some("ru"@)
    } else if language == 0x15 {
        Some("pl"@)
    } else if language == 0x05 {
        Some("cs"@)
    } else if language == 0x0E {
        Some("hu"@)
    } else {
        None
    }
}

/// The language that a layout setting stands for: by name first, then by number.
pub open spec fn language_of(spec: Seq<char>) -> Option<Seq<char>> {
    let low = crate::text::lowered(spec);
    match named_language(low) {
        Some(lang) => Some(lang),
        None => match klid_of(low) {
            Some(klid) => numbered_language(klid % 0x400),
            None => None,
        },
    }
}

fn language_of_chars(spec: &Vec<char>) -> (r: Option<&'static str>)
    ensures
        r is Some <==> language_of(spec@) is Some,
        r matches Some(s) ==> language_of(spec@) == Some(s@),
{
    let low: Vec<char> = lower(spec);
    if let Some(lang) = name_to_language(&low) {
        return Some(lang);
    }
    let klid: u32 = match parse_klid_chars(&low) {
        Some(n) => n,
        None => return None,
    };
    assert(klid & 0x3FF == klid % 0x400) by (bit_vector);
    match klid & 0x3FF {
        0x09 => Some("en"),
        0x0C => Some("fr"),
        0x07 => Some("de"),
        0x0A => Some("es"),
        0x10 => Some("it"),
        0x16 => Some("pt"),
        0x13 => Some("nl"),
        0x1D => Some("sv"),
        0x14 => Some("nb"),
        0x06 => Some("da"),
        0x0B => Some("fi"),
        0x19 => Some("ru"),
        0x15 => Some("pl"),
        0x05 => Some("cs"),
        0x0E => Some("hu"),
        _ => None,
    }
}

pub fn spec_to_language(spec: &str) -> (r: Option<&'static str>)
    ensures
        r is Some <==> language_of(spec@) is Some,
        r matches Some(s) ==> language_of(spec@) == Some(s@),
{
    let v: Vec<char> = chars_of(spec);
    language_of_chars(&v)
}

/// What to look for among the installed layouts: the input source first, then any
/// layout for the language.
#[derive(Debug)]
pub struct Resolution {
    pub source_id: Option<String>,
    pub language: Option<&'static str>,
}

/// The input source that a setting asks for. With a dot in it the setting is the id.
pub open spec fn wanted_source(spec: Seq<char>) -> Option<Seq<char>> {
    let t = crate::text::trimmed(spec);
    if t.contains('.') {
        Some(t)
    } else {
        source_of(t)
    }
}

/// Works out what a layout setting asks for.
pub fn resolve(spec: &str) -> (r: Resolution)
    ensures
        crate::text::string_text(r.source_id) == wanted_source(spec@),
        r.language is Some <==> language_of(crate::text::trimmed(spec@)) is Some,
        r.language matches Some(l) ==> language_of(crate::text::trimmed(spec@)) == Some(l@),
{
    let chars: Vec<char> = chars_of(spec);
    let t: Vec<char> = trim(&chars);
    assert(t@.skip(0) =~= t@);
    let dot: usize = crate::text::find_char(&t, 0, '.');
    proof {
        crate::text::span_before_ends_at_the_first(t@, '.');
        if dot < t@.len() {
            assert(t@.contains('.'));
        }
    }
    let source_id: Option<String> = if dot < t.len() {
        Some(string_of(&t))
    } else {
        match source_of_chars(&t) {
            Some(id) => Some(id.to_owned()),
            None => None,
        }
    };
    Resolution { source_id, language: language_of_chars(&t) }
}

impl Resolution {
    /// The label of the layout that was found, if one was: the input source where it
    /// is installed, else the language where a layout for it is.
    pub open spec fn label_if(&self, source_found: bool, language_found: bool) -> Option<Seq<char>> {
        if self.source_id is Some && source_found {
            Some(self.source_id->0@)
        } else if self.language is Some && language_found {
            Some("lang:"@ + self.language->0@)
        } else {
            None
        }
    }

    pub fn label(&self, source_found: bool, language_found: bool) -> (r: Option<String>)
        ensures
            crate::text::string_text(r) == self.label_if(source_found, language_found),
    {
        if source_found {
            if let Some(id) = &self.source_id {
                return Some(id.clone());
            }
        }
        if language_found {
            if let Some(lang) = self.language {
                return Some(concat2("lang:", lang));
            }
        }
        None
    }
}

pub open spec fn modifier_bits(shift: bool, option: bool, caps: bool) -> int {
    (if shift {
        2int
    } else {
        0
    }) + (if caps {
        4int
    } else {
        0
    }) + (if option {
        8int
    } else {
        0
    })
}

/// The modifiers of a keystroke as the system's translation takes them.
pub fn modifier_state(shift: bool, option: bool, caps: bool) -> (mods: u32)
    ensures
        mods == modifier_bits(shift, option, caps),
{
    let mut mods: u32 = 0;
    if shift {
        mods = mods + 2;
    }
    if caps {
        mods = mods + 4;
    }
    if option {
        mods = mods + 8;
    }
    mods
}

/// A key with its modifiers: key code, shift, option.
pub type Keystroke = (u16, bool, bool);

/// The keys that are tried under each pair of modifiers: all of the typing block but
/// Return and Tab.
pub open spec fn probe_keys(upto: int) -> Seq<u16>
    decreases upto,
{
    if upto <= 0 {
        Seq::empty()
    } else if upto - 1 == 0x24 || upto - 1 == 0x30 {
        probe_keys(upto - 1)
    } else {
        probe_keys(upto - 1).push((upto - 1) as u16)
    }
}

pub open spec fn probes_with(shift: bool, option: bool) -> Seq<Keystroke> {
    probe_keys(0x33).map_values(|vk: u16| (vk, shift, option))
}

/// All keystrokes that are tried, the plainest first.
pub open spec fn all_probes() -> Seq<Keystroke> {
    probes_with(false, false) + probes_with(true, false) + probes_with(false, true) + probes_with(
        true,
        true,
    )
}

fn push_probes(out: &mut Vec<Keystroke>, shift: bool, option: bool)
    ensures
        final(out)@ == old(out)@ + probes_with(shift, option),
{
    let mut vk: u16 = 0;
    let ghost start = out@;
    let ghost as_stroke = |k: u16| (k, shift, option);
    assert(out@ =~= start + probe_keys(0).map_values(as_stroke));
    while vk < 0x33
        invariant
            vk <= 0x33,
            as_stroke == (|k: u16| (k, shift, option)),
            out@ == start + probe_keys(vk as int).map_values(as_stroke),
        decreases 0x33 - vk,
    {
        let ghost done = probe_keys(vk as int);
        if vk != 0x24 && vk != 0x30 {
            out.push((vk, shift, option));
            assert(done.push(vk).map_values(as_stroke) =~= done.map_values(as_stroke).push(
                (vk, shift, option),
            ));
            assert(out@ =~= start + done.push(vk).map_values(as_stroke));
        }
        vk = vk + 1;
    }
}

/// The keystrokes to translate for a reverse map, in order.
pub fn probe_order() -> (out: Vec<Keystroke>)
    ensures
        out@ == all_probes(),
{
    let mut out: Vec<Keystroke> = Vec::new();
    push_probes(&mut out, false, false);
    push_probes(&mut out, true, false);
    push_probes(&mut out, false, true);
    push_probes(&mut out, true, true);
    assert(out@ =~= all_probes());
    out
}

/// The keystroke types exactly the character.
pub open spec fn types(text: Option<String>, c: char) -> bool {
    text is Some && text->0@ == seq![c]
}

/// The first of the probes that types `c`, after `from`.
pub open spec fn first_typing(texts: Seq<Option<String>>, c: char, from: int) -> Option<int>
    decreases texts.len() - from,
{
    if from < 0 || from >= texts.len() {
        None
    } else if types(texts[from], c) {
        Some(from)
    } else {
        first_typing(texts, c, from + 1)
    }
}

/// The entry holds a probe before `upto`, the first that types its character.
pub open spec fn taken_from(texts: Seq<Option<String>>, e: (char, Keystroke), upto: int) -> bool {
    match first_typing(texts, e.0, 0) {
        Some(j) => j < upto && e.1 == all_probes()[j],
        None => false,
    }
}

/// Which keystroke types which character.
#[derive(Debug)]
pub struct ReverseMap {
    pub keys: Vec<(char, Keystroke)>,
}

impl View for ReverseMap {
    type V = Map<char, Keystroke>;

    open spec fn view(&self) -> Map<char, Keystroke> {
        Map::new(|c: char| listed(self.keys@, c), |c: char| self.keys@[listed_at(self.keys@, c)].1)
    }
}

pub open spec fn listed(s: Seq<(char, Keystroke)>, c: char) -> bool {
    exists|i: int| 0 <= i < s.len() && #[trigger] s[i].0 == c
}

pub open spec fn listed_at(s: Seq<(char, Keystroke)>, c: char) -> int {
    choose|i: int| 0 <= i < s.len() && #[trigger] s[i].0 == c
}

impl ReverseMap {
    /// No character is listed twice.
    pub open spec fn wf(&self) -> bool {
        forall|i: int, j: int|
            0 <= i < j < self.keys@.len() ==> #[trigger] self.keys@[i].0 != #[trigger] self.keys@[j].0
    }

    pub fn get(&self, c: char) -> (r: Option<Keystroke>)
        requires
            self.wf(),
        ensures
            r == (if self@.contains_key(c) {
                Some(self@[c])
            } else {
                None
            }),
    {
        let mut i: usize = 0;
        while i < self.keys.len()
            invariant
                i <= self.keys.len(),
                self.wf(),
                forall|k: int| 0 <= k < i ==> #[trigger] self.keys@[k].0 != c,
            decreases self.keys.len() - i,
        {
            if self.keys[i].0 == c {
                proof {
                    assert(self.keys@[i as int].0 == c);
                    let j = listed_at(self.keys@, c);
                    assert(j == i);
                }
                return Some(self.keys[i].1);
            }
            i = i + 1;
        }
        None
    }
}

/// The only character of a text, if it has just one.
fn single_char(text: &Option<String>) -> (r: Option<char>)
    ensures
        r matches Some(c) ==> types(*text, c),
        r is None ==> forall|c: char| !#[trigger] types(*text, c),
{
    match text {
        None => None,
        Some(s) => {
            let v: Vec<char> = chars_of(s.as_str());
            if v.len() == 1 {
                assert(v@ =~= seq![v@[0]]);
                Some(v[0])
            } else {
                proof {
                    assert forall|c: char| !#[trigger] types(*text, c) by {
                        if types(*text, c) {
                            assert(v@.len() == 1);
                        }
                    }
                }
                None
            }
        },
    }
}

/// Builds the reverse map of a layout from what each probe, in the order of
/// [`probe_order`], was translated to. Of several keystrokes for one character the
/// first is kept; a keystroke that types more or less than one character is passed
/// over.
pub fn reverse_map(texts: &Vec<Option<String>>) -> (m: ReverseMap)
    requires
        texts@.len() == all_probes().len(),
    ensures
        m.wf(),
        forall|c: char|
            #![trigger m@.contains_key(c)]
            match first_typing(texts@, c, 0) {
                Some(i) => m@.contains_key(c) && m@[c] == all_probes()[i],
                None => !m@.contains_key(c),
            },
{
    let probes: Vec<Keystroke> = probe_order();
    let mut m: ReverseMap = ReverseMap { keys: Vec::new() };
    let mut i: usize = 0;
    while i < texts.len()
        invariant
            i <= texts@.len(),
            texts@.len() == all_probes().len(),
            probes@ == all_probes(),
            m.wf(),
            forall|k: int|
                0 <= k < m.keys@.len() ==> taken_from(texts@, #[trigger] m.keys@[k], i as int),
            forall|c: char, j: int|
                0 <= j < i && #[trigger] types(texts@[j], c) ==> listed(m.keys@, c),
        decreases texts.len() - i,
    {
        let ghost old_keys = m.keys@;
        if let Some(c) = single_char(&texts[i]) {
            if m.get(c).is_none() {
                assert(!listed(old_keys, c));
                m.keys.push((c, probes[i]));
                proof {
                    assert forall|j: int| 0 <= j < i implies !types(#[trigger] texts@[j], c) by {
                        if types(texts@[j], c) {
                            assert(listed(old_keys, c));
                        }
                    }
                    lemma_first_typing_at(texts@, c, 0, i as int);
                    assert(m.keys@[old_keys.len() as int] == (c, probes@[i as int]));
                    assert(types(texts@[i as int], c));
                    assert forall|a: int, b: int| 0 <= a < b < m.keys@.len() implies
                        #[trigger] m.keys@[a].0 != #[trigger] m.keys@[b].0 by {
                        if b == old_keys.len() {
                            assert(old_keys[a].0 != c);
                        }
                    }
                }
            }
            proof {
                assert forall|d: char, j: int| 0 <= j < i + 1 && #[trigger] types(
                    texts@[j],
                    d,
                ) implies listed(m.keys@, d) by {
                    if j == i {
                        assert(d == c) by {
                            assert(seq![d][0] == seq![c][0]);
                        }
                        if !listed(old_keys, c) {
                            assert(m.keys@[old_keys.len() as int].0 == c);
                        } else {
                            let k = listed_at(old_keys, c);
                            assert(m.keys@[k].0 == c);
                        }
                    } else {
                        let k = listed_at(old_keys, d);
                        assert(m.keys@[k].0 == d);
                    }
                }
            }
        }
        proof {
            assert forall|k: int| 0 <= k < m.keys@.len() implies taken_from(
                texts@,
                #[trigger] m.keys@[k],
                i + 1,
            ) by {
                if k < old_keys.len() {
                    assert(taken_from(texts@, old_keys[k], i as int));
                }
            }
        }
        i = i + 1;
    }
    proof {
        assert forall|c: char| #![trigger m@.contains_key(c)]
            match first_typing(texts@, c, 0) {
                Some(j) => m@.contains_key(c) && m@[c] == all_probes()[j],
                None => !m@.contains_key(c),
            } by {
            lemma_first_typing(texts@, c, 0);
            if listed(m.keys@, c) {
                let k = listed_at(m.keys@, c);
                assert(m.keys@[k].0 == c);
            }
        }
    }
    m
}

proof fn lemma_first_typing(texts: Seq<Option<String>>, c: char, from: int)
    requires
        0 <= from,
    ensures
        match first_typing(texts, c, from) {
            Some(i) => from <= i < texts.len() && types(texts[i], c),
            None => forall|j: int| from <= j < texts.len() ==> !types(#[trigger] texts[j], c),
        },
    decreases texts.len() - from,
{
    if from < texts.len() && !types(texts[from], c) {
        lemma_first_typing(texts, c, from + 1);
    }
}

proof fn lemma_first_typing_at(texts: Seq<Option<String>>, c: char, from: int, i: int)
    requires
        0 <= from <= i < texts.len(),
        types(texts[i], c),
        forall|j: int| from <= j < i ==> !types(#[trigger] texts[j], c),
    ensures
        first_typing(texts, c, from) == Some(i),
    decreases i - from,
{
    if from < i {
        lemma_first_typing_at(texts, c, from + 1, i);
    }
}

/// The keystroke that a reverse map holds for a character types that character, and
/// no keystroke before it does.
pub proof fn reverse_map_round_trips(texts: Seq<Option<String>>, c: char)
    ensures
        first_typing(texts, c, 0) matches Some(i) ==> 0 <= i < texts.len() && types(texts[i], c)
            && forall|j: int| 0 <= j < i ==> !types(#[trigger] texts[j], c),
        first_typing(texts, c, 0) is None ==> forall|j: int|
            0 <= j < texts.len() ==> !types(#[trigger] texts[j], c),
{
    lemma_first_typing(texts, c, 0);
    lemma_first_is_first(texts, c, 0);
}

proof fn lemma_first_is_first(texts: Seq<Option<String>>, c: char, from: int)
    requires
        0 <= from,
    ensures
        first_typing(texts, c, from) matches Some(i) ==> forall|j: int|
            from <= j < i ==> !types(#[trigger] texts[j], c),
    decreases texts.len() - from,
{
    if from < texts.len() && !types(texts[from], c) {
        lemma_first_is_first(texts, c, from + 1);
    }
}

/// No two names have the same length and begin with the same two letters.
proof fn lemma_names_differ()
    ensures
        "us"@.len() == 2 && "us"@[0] == 'u' && "us"@[1] == 's',
        "en"@.len() == 2 && "en"@[0] == 'e' && "en"@[1] == 'n',
        "english"@.len() == 7 && "english"@[0] == 'e' && "english"@[1] == 'n',
        "ansi"@.len() == 4 && "ansi"@[0] == 'a' && "ansi"@[1] == 'n',
        "uk"@.len() == 2 && "uk"@[0] == 'u' && "uk"@[1] == 'k',
        "gb"@.len() == 2 && "gb"@[0] == 'g' && "gb"@[1] == 'b',
        "british"@.len() == 7 && "british"@[0] == 'b' && "british"@[1] == 'r',
        "fr"@.len() == 2 && "fr"@[0] == 'f' && "fr"@[1] == 'r',
        "french"@.len() == 6 && "french"@[0] == 'f' && "french"@[1] == 'r',
        "azerty"@.len() == 6 && "azerty"@[0] == 'a' && "azerty"@[1] == 'z',
        "de"@.len() == 2 && "de"@[0] == 'd' && "de"@[1] == 'e',
        "german"@.len() == 6 && "german"@[0] == 'g' && "german"@[1] == 'e',
        "qwertz"@.len() == 6 && "qwertz"@[0] == 'q' && "qwertz"@[1] == 'w',
        "es"@.len() == 2 && "es"@[0] == 'e' && "es"@[1] == 's',
        "spanish"@.len() == 7 && "spanish"@[0] == 's' && "spanish"@[1] == 'p',
        "it"@.len() == 2 && "it"@[0] == 'i' && "it"@[1] == 't',
        "italian"@.len() == 7 && "italian"@[0] == 'i' && "italian"@[1] == 't',
        "pt"@.len() == 2 && "pt"@[0] == 'p' && "pt"@[1] == 't',
        "portuguese"@.len() == 10 && "portuguese"@[0] == 'p' && "portuguese"@[1] == 'o',
        "br"@.len() == 2 && "br"@[0] == 'b' && "br"@[1] == 'r',
        "brazilian"@.len() == 9 && "brazilian"@[0] == 'b' && "brazilian"@[1] == 'r',
        "nl"@.len() == 2 && "nl"@[0] == 'n' && "nl"@[1] == 'l',
        "dutch"@.len() == 5 && "dutch"@[0] == 'd' && "dutch"@[1] == 'u',
        "be"@.len() == 2 && "be"@[0] == 'b' && "be"@[1] == 'e',
        "belgian"@.len() == 7 && "belgian"@[0] == 'b' && "belgian"@[1] == 'e',
        "se"@.len() == 2 && "se"@[0] == 's' && "se"@[1] == 'e',
        "swedish"@.len() == 7 && "swedish"@[0] == 's' && "swedish"@[1] == 'w',
        "no"@.len() == 2 && "no"@[0] == 'n' && "no"@[1] == 'o',
        "norwegian"@.len() == 9 && "norwegian"@[0] == 'n' && "norwegian"@[1] == 'o',
        "dk"@.len() == 2 && "dk"@[0] == 'd' && "dk"@[1] == 'k',
        "danish"@.len() == 6 && "danish"@[0] == 'd' && "danish"@[1] == 'a',
        "fi"@.len() == 2 && "fi"@[0] == 'f' && "fi"@[1] == 'i',
        "finnish"@.len() == 7 && "finnish"@[0] == 'f' && "finnish"@[1] == 'i',
        "ru"@.len() == 2 && "ru"@[0] == 'r' && "ru"@[1] == 'u',
        "russian"@.len() == 7 && "russian"@[0] == 'r' && "russian"@[1] == 'u',
        "pl"@.len() == 2 && "pl"@[0] == 'p' && "pl"@[1] == 'l',
        "polish"@.len() == 6 && "polish"@[0] == 'p' && "polish"@[1] == 'o',
        "cz"@.len() == 2 && "cz"@[0] == 'c' && "cz"@[1] == 'z',
        "czech"@.len() == 5 && "czech"@[0] == 'c' && "czech"@[1] == 'z',
        "hu"@.len() == 2 && "hu"@[0] == 'h' && "hu"@[1] == 'u',
        "hungarian"@.len() == 9 && "hungarian"@[0] == 'h' && "hungarian"@[1] == 'u',
        "ch"@.len() == 2 && "ch"@[0] == 'c' && "ch"@[1] == 'h',
        "swiss"@.len() == 5 && "swiss"@[0] == 's' && "swiss"@[1] == 'w',
        "swissgerman"@.len() == 11 && "swissgerman"@[0] == 's' && "swissgerman"@[1] == 'w',
{
    reveal_strlit("us");
    reveal_strlit("en");
    reveal_strlit("english");
    reveal_strlit("ansi");
    reveal_strlit("uk");
    reveal_strlit("gb");
    reveal_strlit("british");
    reveal_strlit("fr");
    reveal_strlit("french");
    reveal_strlit("azerty");
    reveal_strlit("de");
    reveal_strlit("german");
    reveal_strlit("qwertz");
    reveal_strlit("es");
    reveal_strlit("spanish");
    reveal_strlit("it");
    reveal_strlit("italian");
    reveal_strlit("pt");
    reveal_strlit("portuguese");
    reveal_strlit("br");
    reveal_strlit("brazilian");
    reveal_strlit("nl");
    reveal_strlit("dutch");
    reveal_strlit("be");
    reveal_strlit("belgian");
    reveal_strlit("se");
    reveal_strlit("swedish");
    reveal_strlit("no");
    reveal_strlit("norwegian");
    reveal_strlit("dk");
    reveal_strlit("danish");
    reveal_strlit("fi");
    reveal_strlit("finnish");
    reveal_strlit("ru");
    reveal_strlit("russian");
    reveal_strlit("pl");
    reveal_strlit("polish");
    reveal_strlit("cz");
    reveal_strlit("czech");
    reveal_strlit("hu");
    reveal_strlit("hungarian");
    reveal_strlit("ch");
    reveal_strlit("swiss");
    reveal_strlit("swissgerman");
}

/// Each name of a layout stands for that layout's input source.
#[verifier::rlimit(60)]
pub proof fn names_stand_for_their_layouts(low: Seq<char>)
    ensures
        low == "us"@ ==> named_source(low) == Some("com.apple.keylayout.US"@),
        low == "en"@ ==> named_source(low) == Some("com.apple.keylayout.US"@),
        low == "english"@ ==> named_source(low) == Some("com.apple.keylayout.US"@),
        low == "ansi"@ ==> named_source(low) == Some("com.apple.keylayout.US"@),
        low == "uk"@ ==> named_source(low) == Some("com.apple.keylayout.British"@),
        low == "gb"@ ==> named_source(low) == Some("com.apple.keylayout.British"@),
        low == "british"@ ==> named_source(low) == Some("com.apple.keylayout.British"@),
        low == "fr"@ ==> named_source(low) == Some("com.apple.keylayout.French"@),
        low == "french"@ ==> named_source(low) == Some("com.apple.keylayout.French"@),
        low == "azerty"@ ==> named_source(low) == Some("com.apple.keylayout.French"@),
        low == "de"@ ==> named_source(low) == Some("com.apple.keylayout.German"@),
        low == "german"@ ==> named_source(low) == Some("com.apple.keylayout.German"@),
        low == "qwertz"@ ==> named_source(low) == Some("com.apple.keylayout.German"@),
        low == "es"@ ==> named_source(low) == Some("com.apple.keylayout.Spanish-ISO"@),
        low == "spanish"@ ==> named_source(low) == Some("com.apple.keylayout.Spanish-ISO"@),
        low == "it"@ ==> named_source(low) == Some("com.apple.keylayout.Italian"@),
        low == "italian"@ ==> named_source(low) == Some("com.apple.keylayout.Italian"@),
        low == "pt"@ ==> named_source(low) == Some("com.apple.keylayout.Portuguese"@),
        low == "portuguese"@ ==> named_source(low) == Some("com.apple.keylayout.Portuguese"@),
        low == "br"@ ==> named_source(low) == Some("com.apple.keylayout.Brazilian"@),
        low == "brazilian"@ ==> named_source(low) == Some("com.apple.keylayout.Brazilian"@),
        low == "nl"@ ==> named_source(low) == Some("com.apple.keylayout.Dutch"@),
        low == "dutch"@ ==> named_source(low) == Some("com.apple.keylayout.Dutch"@),
        low == "be"@ ==> named_source(low) == Some("com.apple.keylayout.Belgian"@),
        low == "belgian"@ ==> named_source(low) == Some("com.apple.keylayout.Belgian"@),
        low == "se"@ ==> named_source(low) == Some("com.apple.keylayout.Swedish"@),
        low == "swedish"@ ==> named_source(low) == Some("com.apple.keylayout.Swedish"@),
        low == "no"@ ==> named_source(low) == Some("com.apple.keylayout.Norwegian"@),
        low == "norwegian"@ ==> named_source(low) == Some("com.apple.keylayout.Norwegian"@),
        low == "dk"@ ==> named_source(low) == Some("com.apple.keylayout.Danish"@),
        low == "danish"@ ==> named_source(low) == Some("com.apple.keylayout.Danish"@),
        low == "fi"@ ==> named_source(low) == Some("com.apple.keylayout.Finnish"@),
        low == "finnish"@ ==> named_source(low) == Some("com.apple.keylayout.Finnish"@),
        low == "ru"@ ==> named_source(low) == Some("com.apple.keylayout.Russian"@),
        low == "russian"@ ==> named_source(low) == Some("com.apple.keylayout.Russian"@),
        low == "pl"@ ==> named_source(low) == Some("com.apple.keylayout.Polish"@),
        low == "polish"@ ==> named_source(low) == Some("com.apple.keylayout.Polish"@),
        low == "cz"@ ==> named_source(low) == Some("com.apple.keylayout.Czech"@),
        low == "czech"@ ==> named_source(low) == Some("com.apple.keylayout.Czech"@),
        low == "hu"@ ==> named_source(low) == Some("com.apple.keylayout.Hungarian"@),
        low == "hungarian"@ ==> named_source(low) == Some("com.apple.keylayout.Hungarian"@),
        low == "ch"@ ==> named_source(low) == Some("com.apple.keylayout.SwissGerman"@),
        low == "swiss"@ ==> named_source(low) == Some("com.apple.keylayout.SwissGerman"@),
        low == "swissgerman"@ ==> named_source(low) == Some("com.apple.keylayout.SwissGerman"@),
        low.len() > 11 ==> named_source(low) is None,
{
    lemma_names_differ();
}

/// And for its language.
#[verifier::rlimit(60)]
pub proof fn names_stand_for_their_languages(low: Seq<char>)
    ensures
        low == "us"@ ==> named_language(low) == Some("en"@),
        low == "en"@ ==> named_language(low) == Some("en"@),
        low == "english"@ ==> named_language(low) == Some("en"@),
        low == "uk"@ ==> named_language(low) == Some("en"@),
        low == "gb"@ ==> named_language(low) == Some("en"@),
        low == "british"@ ==> named_language(low) == Some("en"@),
        low == "fr"@ ==> named_language(low) == Some("fr"@),
        low == "french"@ ==> named_language(low) == Some("fr"@),
        low == "azerty"@ ==> named_language(low) == Some("fr"@),
        low == "de"@ ==> named_language(low) == Some("de"@),
        low == "german"@ ==> named_language(low) == Some("de"@),
        low == "qwertz"@ ==> named_language(low) == Some("de"@),
        low == "ch"@ ==> named_language(low) == Some("de"@),
        low == "swiss"@ ==> named_language(low) == Some("de"@),
        low == "swissgerman"@ ==> named_language(low) == Some("de"@),
        low == "es"@ ==> named_language(low) == Some("es"@),
        low == "spanish"@ ==> named_language(low) == Some("es"@),
        low == "it"@ ==> named_language(low) == Some("it"@),
        low == "italian"@ ==> named_language(low) == Some("it"@),
        low == "pt"@ ==> named_language(low) == Some("pt"@),
        low == "portuguese"@ ==> named_language(low) == Some("pt"@),
        low == "br"@ ==> named_language(low) == Some("pt"@),
        low == "brazilian"@ ==> named_language(low) == Some("pt"@),
        low == "nl"@ ==> named_language(low) == Some("nl"@),
        low == "dutch"@ ==> named_language(low) == Some("nl"@),
        low == "be"@ ==> named_language(low) == Some("nl"@),
        low == "belgian"@ ==> named_language(low) == Some("nl"@),
        low == "se"@ ==> named_language(low) == Some("sv"@),
        low == "swedish"@ ==> named_language(low) == Some("sv"@),
        low == "no"@ ==> named_language(low) == Some("nb"@),
        low == "norwegian"@ ==> named_language(low) == Some("nb"@),
        low == "dk"@ ==> named_language(low) == Some("da"@),
        low == "danish"@ ==> named_language(low) == Some("da"@),
        low == "fi"@ ==> named_language(low) == Some("fi"@),
        low == "finnish"@ ==> named_language(low) == Some("fi"@),
        low == "ru"@ ==> named_language(low) == Some("ru"@),
        low == "russian"@ ==> named_language(low) == Some("ru"@),
        low == "pl"@ ==> named_language(low) == Some("pl"@),
        low == "polish"@ ==> named_language(low) == Some("pl"@),
        low == "cz"@ ==> named_language(low) == Some("cs"@),
        low == "czech"@ ==> named_language(low) == Some("cs"@),
        low == "hu"@ ==> named_language(low) == Some("hu"@),
        low == "hungarian"@ ==> named_language(low) == Some("hu"@),
{
    lemma_names_differ();
}

/// Each Windows layout number stands for that layout's input source.
pub proof fn numbers_stand_for_their_layouts(layout: u32)
    ensures
        layout == 0x0409 ==> numbered_source(layout) == Some("com.apple.keylayout.US"@),
        layout == 0x0809 ==> numbered_source(layout) == Some("com.apple.keylayout.British"@),
        layout == 0x040C ==> numbered_source(layout) == Some("com.apple.keylayout.French"@),
        layout == 0x080C ==> numbered_source(layout) == Some("com.apple.keylayout.Belgian"@),
        layout == 0x0C0C ==> numbered_source(layout) == Some("com.apple.keylayout.Canadian-CSA"@),
        layout == 0x0407 ==> numbered_source(layout) == Some("com.apple.keylayout.German"@),
        layout == 0x0807 ==> numbered_source(layout) == Some("com.apple.keylayout.SwissGerman"@),
        layout == 0x040A ==> numbered_source(layout) == Some("com.apple.keylayout.Spanish-ISO"@),
        layout == 0x0410 ==> numbered_source(layout) == Some("com.apple.keylayout.Italian"@),
        layout == 0x0413 ==> numbered_source(layout) == Some("com.apple.keylayout.Dutch"@),
        layout == 0x0813 ==> numbered_source(layout) == Some("com.apple.keylayout.Belgian"@),
        layout == 0x0416 ==> numbered_source(layout) == Some("com.apple.keylayout.Brazilian"@),
        layout == 0x0816 ==> numbered_source(layout) == Some("com.apple.keylayout.Portuguese"@),
        layout == 0x041D ==> numbered_source(layout) == Some("com.apple.keylayout.Swedish"@),
        layout == 0x0414 ==> numbered_source(layout) == Some("com.apple.keylayout.Norwegian"@),
        layout == 0x0406 ==> numbered_source(layout) == Some("com.apple.keylayout.Danish"@),
        layout == 0x040B ==> numbered_source(layout) == Some("com.apple.keylayout.Finnish"@),
        layout == 0x0419 ==> numbered_source(layout) == Some("com.apple.keylayout.Russian"@),
        layout == 0x0415 ==> numbered_source(layout) == Some("com.apple.keylayout.Polish"@),
        layout == 0x0405 ==> numbered_source(layout) == Some("com.apple.keylayout.Czech"@),
        layout == 0x040E ==> numbered_source(layout) == Some("com.apple.keylayout.Hungarian"@),
        layout < 0x0405 ==> numbered_source(layout) is None,
        layout > 0x0C0C ==> numbered_source(layout) is None,
{
}

/// The last ten bits of it stand for the language.
pub proof fn numbers_stand_for_their_languages(language: u32)
    ensures
        language == 0x09 ==> numbered_language(language) == Some("en"@),
        language == 0x0C ==> numbered_language(language) == Some("fr"@),
        language == 0x07 ==> numbered_language(language) == Some("de"@),
        language == 0x0A ==> numbered_language(language) == Some("es"@),
        language == 0x10 ==> numbered_language(language) == Some("it"@),
        language == 0x16 ==> numbered_language(language) == Some("pt"@),
        language == 0x13 ==> numbered_language(language) == Some("nl"@),
        language == 0x1D ==> numbered_language(language) == Some("sv"@),
        language == 0x14 ==> numbered_language(language) == Some("nb"@),
        language == 0x06 ==> numbered_language(language) == Some("da"@),
        language == 0x0B ==> numbered_language(language) == Some("fi"@),
        language == 0x19 ==> numbered_language(language) == Some("ru"@),
        language == 0x15 ==> numbered_language(language) == Some("pl"@),
        language == 0x05 ==> numbered_language(language) == Some("cs"@),
        language == 0x0E ==> numbered_language(language) == Some("hu"@),
        language > 0x1D || language < 0x05 ==> numbered_language(language) is None,
{
}

/// A setting is a name first, in whatever letters, and a number where it is none; of a number
/// only the lower half counts. A setting with a dot is the input source itself.
pub proof fn names_come_before_numbers(spec: Seq<char>, k: u32)
    ensures
        named_source(crate::text::lowered(spec)) is Some ==> source_of(spec) == named_source(
            crate::text::lowered(spec),
        ),
        named_source(crate::text::lowered(spec)) is None && klid_of(crate::text::lowered(spec)) == Some(k)
            ==> source_of(spec) == numbered_source((k as int % 65536) as u32),
        named_source(crate::text::lowered(spec)) is None && klid_of(crate::text::lowered(spec)) is None
            ==> source_of(spec) is None,
        named_language(crate::text::lowered(spec)) is None && klid_of(crate::text::lowered(spec)) == Some(
            k,
        ) ==> language_of(spec) == numbered_language((k as int % 1024) as u32),
        crate::text::trimmed(spec).contains('.') ==> wanted_source(spec) == Some(
            crate::text::trimmed(spec),
        ),
        !crate::text::trimmed(spec).contains('.') ==> wanted_source(spec) == source_of(
            crate::text::trimmed(spec),
        ),
{
}

/// The keys of the typing block depend on the layout; Return, Tab and Space do not, and neither
/// does any key outside it.
pub proof fn the_typing_block_depends_on_the_layout(sc: u8)
    ensures
        0x02 <= sc <= 0x0D || 0x10 <= sc <= 0x1B || 0x1E <= sc <= 0x29 || 0x2B <= sc <= 0x35
            ==> translatable(crate::scancodes::key_of(sc, false)->0),
        sc == 0x01 || sc == 0x0E || sc == 0x0F || sc == 0x1C || sc == 0x1D || sc == 0x2A || sc == 0x36
            || sc == 0x38 || sc == 0x39 || 0x3B <= sc <= 0x44 || 0x47 <= sc <= 0x53 ==> !translatable(
            crate::scancodes::key_of(sc, false)->0,
        ),
        sc == 0x48 || sc == 0x4B || sc == 0x4D || sc == 0x50 ==> !translatable(
            crate::scancodes::key_of(sc, true)->0,
        ),
{
}

/// Shift, caps lock and option are the bits of weight 2, 4 and 8, each by itself.
pub proof fn modifiers_are_bits(shift: bool, option: bool, caps: bool)
    ensures
        modifier_bits(false, false, false) == 0,
        modifier_bits(true, option, caps) == modifier_bits(false, option, caps) + 2,
        modifier_bits(shift, option, true) == modifier_bits(shift, option, false) + 4,
        modifier_bits(shift, true, caps) == modifier_bits(shift, false, caps) + 8,
{
}

/// The keys that are tried are those of the typing block and Space, in order; neither Return
/// nor Tab is among them.
pub proof fn typing_keys_are_tried_in_order(n: int)
    requires
        0 <= n <= 0x33,
    ensures
        probe_keys(n).len() == n - (if n > 0x30 {
            2int
        } else if n > 0x24 {
            1
        } else {
            0
        }),
        forall|i: int|
            0 <= i < probe_keys(n).len() ==> #[trigger] probe_keys(n)[i] == i + (if i >= 0x2F {
                2int
            } else if i >= 0x24 {
                1
            } else {
                0
            }),
    decreases n,
{
    if n > 0 {
        typing_keys_are_tried_in_order(n - 1);
    }
}

/// Each of them is tried plain first, then with shift, then with option, then with both.
pub proof fn plain_keys_are_tried_first(i: int)
    requires
        0 <= i < 196,
    ensures
        all_probes().len() == 196,
        all_probes()[i].1 <==> 49 <= i < 98 || i >= 147,
        all_probes()[i].2 <==> i >= 98,
        i < 147 ==> all_probes()[i].0 == all_probes()[i + 49].0,
{
    typing_keys_are_tried_in_order(0x33);
    assert(probes_with(false, false).len() == 49);
    assert(probes_with(true, false).len() == 49);
    assert(probes_with(false, true).len() == 49);
    assert(probes_with(true, true).len() == 49);
}

/// The layout that was found is named by its input source where that is installed, and by its
/// language where only that is.
pub proof fn sources_come_before_languages(r: Resolution)
    ensures
        r.source_id matches Some(id) ==> r.label_if(true, true) == Some(id@) && r.label_if(true, false)
            == Some(id@),
        r.language matches Some(l) ==> r.label_if(false, true) == Some("lang:"@ + l@),
        r.label_if(false, false) is None,
        r.source_id is None && r.language is None ==> r.label_if(true, true) is None,
{
}

/// The name of a layout or of a language is no number. One to eight hexadecimal digits that are
/// no name are one, after `0x` or without, and no other text is.
pub proof fn names_are_no_numbers(spec: Seq<char>, t: Seq<char>)
    ensures
        named_source(crate::text::lowered(spec)) is Some ==> layout_number(spec) is None,
        named_language(crate::text::lowered(spec)) is Some ==> layout_number(spec) is None,
        named_source(crate::text::lowered(spec)) is None && named_language(
            crate::text::lowered(spec),
        ) is None && spec == t && crate::text::all_hex(t) && 0 < t.len() <= 8 ==> layout_number(spec)
            == Some(crate::text::hex_value(t) as u32),
        named_source(crate::text::lowered(spec)) is None && named_language(
            crate::text::lowered(spec),
        ) is None && (spec == seq!['0', 'x'] + t || spec == seq!['0', 'X'] + t)
            && crate::text::all_hex(t) && 0 < t.len() <= 8 ==> layout_number(spec) == Some(
            crate::text::hex_value(t) as u32,
        ),
        spec.len() == 0 || spec.len() > 10 ==> layout_number(spec) is None,
{
    reveal_strlit("0x");
    reveal_strlit("0X");
    assert("0x"@ =~= seq!['0', 'x']);
    assert("0X"@ =~= seq!['0', 'X']);
    if spec == t && crate::text::all_hex(t) && t.len() >= 2 {
        assert(crate::text::hex_digit(t[1]) is Some);
        assert(t[1] != 'x' && t[1] != 'X');
        assert(spec.take(2)[1] == t[1]);
        assert("0x"@[1] == 'x' && "0X"@[1] == 'X');
    }
    let (a, b) = (seq!['0', 'x'] + t, seq!['0', 'X'] + t);
    assert(a.skip(2) =~= t && b.skip(2) =~= t);
    assert(a.take(2) =~= seq!['0', 'x'] && b.take(2) =~= seq!['0', 'X']);
    assert(b.take(2)[1] != 'x');
}

} // verus!
