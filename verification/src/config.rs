//! The configuration file: settings, one to a line, and the command line they stand for.
use crate::text::{
    chars_of, lines, same_chars, slice_chars, split_once, string_of, strip_prefix, trim,
    words,
};
use vstd::prelude::*;

verus! {

/// A value without the quotes that enclose it.
pub open spec fn unquoted(v: Seq<char>) -> Seq<char> {
    if v.len() >= 2 && v[0] == v.last() && (v[0] == '"' || v[0] == '\'') {
        v.subrange(1, v.len() - 1)
    } else {
        v
    }
}

/// The setting on a line: a name and a value. A blank line, a comment and a line
/// without an equals sign hold none.
pub open spec fn setting_of(line: Seq<char>) -> Option<(Seq<char>, Seq<char>)> {
    let l = crate::text::trimmed(line);
    if l.len() == 0 || l[0] == '#' {
        None
    } else {
        let l = match crate::text::after_prefix(l, "export "@) {
            Some(rest) => rest,
            None => l,
        };
        match crate::text::split_at_first(l, '=') {
            Some((k, v)) => Some((crate::text::trimmed(k), unquoted(crate::text::trimmed(v)))),
            None => None,
        }
    }
}

/// The settings on the lines, in their order.
pub open spec fn settings_of(lines: Seq<Seq<char>>) -> Seq<(Seq<char>, Seq<char>)>
    decreases lines.len(),
{
    if lines.len() == 0 {
        Seq::empty()
    } else {
        let rest = settings_of(lines.drop_last());
        match setting_of(lines.last()) {
            Some(s) => rest.push(s),
            None => rest,
        }
    }
}

/// The value that `key` was given last.
pub open spec fn value_of(settings: Seq<(Seq<char>, Seq<char>)>, key: Seq<char>) -> Option<Seq<char>>
    decreases settings.len(),
{
    if settings.len() == 0 {
        None
    } else if settings.last().0 == key {
        Some(settings.last().1)
    } else {
        value_of(settings.drop_last(), key)
    }
}

/// A name and its value.
#[derive(Debug)]
pub struct Setting {
    pub key: Vec<char>,
    pub value: Vec<char>,
}

#[derive(Debug)]
pub struct Config {
    settings: Vec<Setting>,
}

pub open spec fn pairs(settings: Seq<Setting>) -> Seq<(Seq<char>, Seq<char>)> {
    settings.map_values(|s: Setting| (s.key@, s.value@))
}

fn unquote(v: &Vec<char>) -> (r: Vec<char>)
    ensures
        r@ == unquoted(v@),
{
    let n: usize = v.len();
    if n >= 2 && v[0] == v[n - 1] && (v[0] == '"' || v[0] == '\'') {
        slice_chars(v, 1, n - 1)
    } else {
        let r: Vec<char> = slice_chars(v, 0, n);
        assert(r@ =~= v@);
        r
    }
}

fn read_setting(line: &Vec<char>) -> (r: Option<Setting>)
    ensures
        r is Some <==> setting_of(line@) is Some,
        r matches Some(s) ==> setting_of(line@) == Some((s.key@, s.value@)),
{
    let l: Vec<char> = trim(line);
    if l.len() == 0 || l[0] == '#' {
        return None;
    }
    let l: Vec<char> = match strip_prefix(&l, "export ") {
        Some(rest) => rest,
        None => l,
    };
    match split_once(&l, '=') {
        Some((k, v)) => {
            let key: Vec<char> = trim(&k);
            let value: Vec<char> = unquote(&trim(&v));
            Some(Setting { key, value })
        },
        None => None,
    }
}

impl Config {
    /// What was set, in order.
    pub closed spec fn all(&self) -> Seq<(Seq<char>, Seq<char>)> {
        pairs(self.settings@)
    }

    /// Reads the text of a configuration file.
    pub fn parse(text: &str) -> (c: Self)
        ensures
            c.all() == settings_of(crate::text::lines_of(text@)),
    {
        let all: Vec<Vec<char>> = lines(&chars_of(text));
        let ghost spec_lines = crate::text::texts(all@);
        let mut settings: Vec<Setting> = Vec::new();
        let mut i: usize = 0;
        assert(spec_lines.take(0) =~= Seq::<Seq<char>>::empty());
        assert(pairs(settings@) =~= settings_of(spec_lines.take(0)));
        while i < all.len()
            invariant
                i <= all.len(),
                spec_lines == crate::text::texts(all@),
                pairs(settings@) == settings_of(spec_lines.take(i as int)),
            decreases all.len() - i,
        {
            let ghost before = settings@;
            assert(spec_lines.take(i + 1).drop_last() =~= spec_lines.take(i as int));
            assert(spec_lines[i as int] == all@[i as int]@);
            if let Some(s) = read_setting(&all[i]) {
                settings.push(s);
                assert(pairs(settings@) =~= pairs(before).push((s.key@, s.value@)));
            }
            i = i + 1;
        }
        assert(spec_lines.take(i as int) =~= spec_lines);
        Config { settings }
    }

    /// The value that `key` was given last.
    pub fn get(&self, key: &str) -> (r: Option<&Vec<char>>)
        ensures
            r is Some <==> value_of(self.all(), key@) is Some,
            r matches Some(v) ==> value_of(self.all(), key@) == Some(v@),
    {
        let k: Vec<char> = chars_of(key);
        let mut i: usize = self.settings.len();
        assert(self.all().take(i as int) =~= self.all());
        while i > 0
            invariant
                i <= self.settings.len(),
                k@ == key@,
                value_of(self.all(), key@) == value_of(self.all().take(i as int), key@),
            decreases i,
        {
            i = i - 1;
            let ghost front = self.all().take(i + 1);
            assert(front.drop_last() =~= self.all().take(i as int));
            assert(front.last() == (self.settings@[i as int].key@, self.settings@[i as int].value@));
            if same_chars(&self.settings[i].key, &k) {
                return Some(&self.settings[i].value);
            }
        }
        None
    }
}

/// A switch is on where its value is `1`; where it has none, it has its default.
pub open spec fn switched(
    settings: Seq<(Seq<char>, Seq<char>)>,
    key: Seq<char>,
    default: bool,
) -> bool {
    match value_of(settings, key) {
        Some(v) => v == seq!['1'],
        None => default,
    }
}

pub open spec fn value_or(
    settings: Seq<(Seq<char>, Seq<char>)>,
    key: Seq<char>,
    default: Seq<char>,
) -> Seq<char> {
    match value_of(settings, key) {
        Some(v) => v,
        None => default,
    }
}

/// The flag that a switch stands for.
pub open spec fn flag_part(
    settings: Seq<(Seq<char>, Seq<char>)>,
    key: Seq<char>,
    default: bool,
    flag: Seq<char>,
) -> Seq<Seq<char>> {
    if switched(settings, key, default) {
        seq![flag]
    } else {
        Seq::empty()
    }
}

/// A flag with a value, left out where the value is empty or missing.
pub open spec fn valued_part(flag: Seq<char>, value: Option<Seq<char>>) -> Seq<Seq<char>> {
    if value is Some && value->0.len() > 0 {
        seq![flag, value->0]
    } else {
        Seq::empty()
    }
}

/// The user named in the file, or the one who runs the program.
pub open spec fn user_of(
    settings: Seq<(Seq<char>, Seq<char>)>,
    user: Option<Seq<char>>,
) -> Option<Seq<char>> {
    match value_of(settings, "USERNAME"@) {
        Some(v) => Some(v),
        None => user,
    }
}

/// The way of going headless. An older switch counts where the newer one says nothing.
pub open spec fn primary_part(settings: Seq<(Seq<char>, Seq<char>)>) -> Seq<Seq<char>> {
    let mode = value_or(settings, "PRIMARY_MODE"@, "none"@);
    if mode == "detach"@ {
        seq!["--detach-primary"@]
    } else if mode == "capture"@ || (mode == "none"@ && switched(
        settings,
        "CAPTURE_PRIMARY"@,
        false,
    )) {
        seq!["--capture-primary"@]
    } else {
        Seq::empty()
    }
}

pub open spec fn display_part(settings: Seq<(Seq<char>, Seq<char>)>) -> Seq<Seq<char>> {
    if switched(settings, "VIRTUAL_DISPLAY"@, false) {
        seq![
            "--virtual-display"@,
            "--width"@,
            value_or(settings, "VD_WIDTH"@, "1920"@),
            "--height"@,
            value_or(settings, "VD_HEIGHT"@, "1080"@),
        ] + primary_part(settings)
    } else {
        Seq::empty()
    }
}

pub open spec fn extra_part(settings: Seq<(Seq<char>, Seq<char>)>) -> Seq<Seq<char>> {
    match value_of(settings, "EXTRA_FLAGS"@) {
        Some(v) => crate::text::words_of(v),
        None => Seq::empty(),
    }
}

/// The command line that the settings stand for.
pub open spec fn command_line(
    settings: Seq<(Seq<char>, Seq<char>)>,
    user: Option<Seq<char>>,
) -> Seq<Seq<char>> {
    seq!["macrdp"@, "--bind"@, value_or(settings, "BIND"@, "127.0.0.1:3390"@)]
        + valued_part("--username"@, user_of(settings, user))
        + flag_part(settings, "USE_KEYCHAIN"@, true, "--keychain"@)
        + flag_part(settings, "ENABLE_H264"@, false, "--enable-h264"@)
        + flag_part(settings, "ENABLE_AAC"@, false, "--enable-aac"@)
        + flag_part(settings, "HIDPI"@, false, "--hidpi"@)
        + flag_part(settings, "UNMINIMIZE"@, false, "--unminimize-on-switch"@)
        + flag_part(settings, "ALT_TAB_SWITCH"@, false, "--alt-tab-switch"@)
        + flag_part(settings, "APP_SWITCHER_HUD"@, false, "--app-switcher-hud"@)
        + flag_part(settings, "MAP_CTRL_TO_CMD"@, false, "--map-ctrl-to-cmd"@)
        + valued_part("--no-remap-apps"@, value_of(settings, "NO_REMAP_APPS"@))
        + flag_part(
        settings,
        "ENABLE_DRIVE_REDIRECTION"@,
        false,
        "--enable-drive-redirection"@,
    ) + flag_part(
        settings,
        "ENABLE_SMARTCARD_REDIRECTION"@,
        false,
        "--enable-smartcard-redirection"@,
    ) + flag_part(
        settings,
        "ENABLE_UDP_MULTITRANSPORT"@,
        false,
        "--enable-udp-multitransport"@,
    ) + flag_part(settings, "FORK_WORKERS"@, false, "--fork-workers"@) + display_part(settings)
        + valued_part("--keyboard-layout"@, value_of(settings, "KEYBOARD_LAYOUT"@)) + extra_part(
        settings,
    )
}

/// The arguments as texts.
pub open spec fn arguments(argv: Seq<String>) -> Seq<Seq<char>> {
    argv.map_values(|s: String| s@)
}

fn push_text(argv: &mut Vec<String>, text: &str)
    ensures
        arguments(final(argv)@) == arguments(old(argv)@).push(text@),
{
    let s: String = string_of(&chars_of(text));
    argv.push(s);
    assert(arguments(argv@) =~= arguments(old(argv)@).push(text@));
}

fn push_chars(argv: &mut Vec<String>, text: &Vec<char>)
    ensures
        arguments(final(argv)@) == arguments(old(argv)@).push(text@),
{
    let s: String = string_of(text);
    argv.push(s);
    assert(arguments(argv@) =~= arguments(old(argv)@).push(text@));
}

impl Config {
    /// Whether a switch is on.
    pub fn on(&self, key: &str, default: bool) -> (r: bool)
        ensures
            r == switched(self.all(), key@, default),
    {
        match self.get(key) {
            Some(v) => {
                let r: bool = v.len() == 1 && v[0] == '1';
                assert(r == (v@ =~= seq!['1']));
                r
            },
            None => default,
        }
    }

    fn push_flag(&self, argv: &mut Vec<String>, key: &str, default: bool, flag: &str)
        ensures
            arguments(final(argv)@) == arguments(old(argv)@) + flag_part(
                self.all(),
                key@,
                default,
                flag@,
            ),
    {
        let ghost before = arguments(argv@);
        if self.on(key, default) {
            push_text(argv, flag);
            assert(before.push(flag@) =~= before + seq![flag@]);
        } else {
            assert(before =~= before + Seq::<Seq<char>>::empty());
        }
    }

    fn push_or(&self, argv: &mut Vec<String>, key: &str, default: &str)
        ensures
            arguments(final(argv)@) == arguments(old(argv)@).push(
                value_or(self.all(), key@, default@),
            ),
    {
        match self.get(key) {
            Some(v) => push_chars(argv, v),
            None => push_text(argv, default),
        }
    }

    fn push_valued(&self, argv: &mut Vec<String>, flag: &str, key: &str)
        ensures
            arguments(final(argv)@) == arguments(old(argv)@) + valued_part(
                flag@,
                value_of(self.all(), key@),
            ),
    {
        let ghost before = arguments(argv@);
        if let Some(v) = self.get(key) {
            if v.len() > 0 {
                push_text(argv, flag);
                push_chars(argv, v);
                assert(before.push(flag@).push(v@) =~= before + seq![flag@, v@]);
                return;
            }
        }
        assert(before =~= before + Seq::<Seq<char>>::empty());
    }

    fn push_user(&self, argv: &mut Vec<String>, user: Option<&str>)
        ensures
            arguments(final(argv)@) == arguments(old(argv)@) + valued_part(
                "--username"@,
                user_of(
                    self.all(),
                    crate::text::text_of(user),
                ),
            ),
    {
        let ghost before = arguments(argv@);
        let name: Vec<char> = match self.get("USERNAME") {
            Some(v) => slice_chars(v, 0, v.len()),
            None => match user {
                Some(u) => chars_of(u),
                None => Vec::new(),
            },
        };
        proof {
            if let Some(v) = value_of(self.all(), "USERNAME"@) {
                assert(name@ =~= v);
            }
        }
        if name.len() > 0 {
            push_text(argv, "--username");
            push_chars(argv, &name);
            assert(before.push("--username"@).push(name@) =~= before + seq!["--username"@, name@]);
        } else {
            assert(before =~= before + Seq::<Seq<char>>::empty());
        }
    }

    fn push_display(&self, argv: &mut Vec<String>)
        ensures
            arguments(final(argv)@) == arguments(old(argv)@) + display_part(self.all()),
    {
        let ghost before = arguments(argv@);
        if !self.on("VIRTUAL_DISPLAY", false) {
            assert(before =~= before + Seq::<Seq<char>>::empty());
            return;
        }
        push_text(argv, "--virtual-display");
        push_text(argv, "--width");
        self.push_or(argv, "VD_WIDTH", "1920");
        push_text(argv, "--height");
        self.push_or(argv, "VD_HEIGHT", "1080");
        let ghost five = seq![
            "--virtual-display"@,
            "--width"@,
            value_or(self.all(), "VD_WIDTH"@, "1920"@),
            "--height"@,
            value_or(self.all(), "VD_HEIGHT"@, "1080"@),
        ];
        assert(arguments(argv@) =~= before + five);
        let mode: Vec<char> = match self.get("PRIMARY_MODE") {
            Some(v) => slice_chars(v, 0, v.len()),
            None => chars_of("none"),
        };
        proof {
            assert(mode@ =~= value_or(self.all(), "PRIMARY_MODE"@, "none"@));
            reveal_strlit("detach");
            reveal_strlit("capture");
            reveal_strlit("none");
        }
        if crate::text::same(&mode, "detach") {
            push_text(argv, "--detach-primary");
        } else if crate::text::same(&mode, "capture") {
            push_text(argv, "--capture-primary");
        } else if crate::text::same(&mode, "none") && self.on("CAPTURE_PRIMARY", false) {
            push_text(argv, "--capture-primary");
        }
        assert(arguments(argv@) =~= before + (five + primary_part(self.all())));
    }

    fn push_extra(&self, argv: &mut Vec<String>)
        ensures
            arguments(final(argv)@) == arguments(old(argv)@) + extra_part(self.all()),
    {
        let ghost before = arguments(argv@);
        match self.get("EXTRA_FLAGS") {
            Some(v) => {
                let all: Vec<Vec<char>> = words(v);
                let ghost extra = crate::text::texts(all@);
                let mut i: usize = 0;
                assert(before + extra.take(0) =~= before);
                while i < all.len()
                    invariant
                        i <= all.len(),
                        extra == crate::text::texts(all@),
                        arguments(argv@) == before + extra.take(i as int),
                    decreases all.len() - i,
                {
                    push_chars(argv, &all[i]);
                    assert(extra[i as int] == all@[i as int]@);
                    assert((before + extra.take(i as int)).push(extra[i as int]) =~= before
                        + extra.take(i + 1));
                    i = i + 1;
                }
                assert(extra.take(i as int) =~= extra);
            },
            None => {
                assert(before =~= before + Seq::<Seq<char>>::empty());
            },
        }
    }
}

/// Turns the text of a configuration file into a command line. `user` is who runs the
/// program.
pub fn args_from_config(text: &str, user: Option<&str>) -> (argv: Vec<String>)
    ensures
        arguments(argv@) == command_line(
            settings_of(crate::text::lines_of(text@)),
            crate::text::text_of(user),
        ),
{
    let cfg: Config = Config::parse(text);
    let mut argv: Vec<String> = Vec::new();
    push_text(&mut argv, "macrdp");
    push_text(&mut argv, "--bind");
    cfg.push_or(&mut argv, "BIND", "127.0.0.1:3390");
    assert(arguments(argv@) =~= seq![
        "macrdp"@,
        "--bind"@,
        value_or(cfg.all(), "BIND"@, "127.0.0.1:3390"@),
    ]);
    cfg.push_user(&mut argv, user);
    cfg.push_flag(&mut argv, "USE_KEYCHAIN", true, "--keychain");
    cfg.push_flag(&mut argv, "ENABLE_H264", false, "--enable-h264");
    cfg.push_flag(&mut argv, "ENABLE_AAC", false, "--enable-aac");
    cfg.push_flag(&mut argv, "HIDPI", false, "--hidpi");
    cfg.push_flag(&mut argv, "UNMINIMIZE", false, "--unminimize-on-switch");
    cfg.push_flag(&mut argv, "ALT_TAB_SWITCH", false, "--alt-tab-switch");
    cfg.push_flag(&mut argv, "APP_SWITCHER_HUD", false, "--app-switcher-hud");
    cfg.push_flag(&mut argv, "MAP_CTRL_TO_CMD", false, "--map-ctrl-to-cmd");
    cfg.push_valued(&mut argv, "--no-remap-apps", "NO_REMAP_APPS");
    cfg.push_flag(
        &mut argv,
        "ENABLE_DRIVE_REDIRECTION",
        false,
        "--enable-drive-redirection",
    );
    cfg.push_flag(
        &mut argv,
        "ENABLE_SMARTCARD_REDIRECTION",
        false,
        "--enable-smartcard-redirection",
    );
    cfg.push_flag(
        &mut argv,
        "ENABLE_UDP_MULTITRANSPORT",
        false,
        "--enable-udp-multitransport",
    );
    cfg.push_flag(&mut argv, "FORK_WORKERS", false, "--fork-workers");
    cfg.push_display(&mut argv);
    cfg.push_valued(&mut argv, "--keyboard-layout", "KEYBOARD_LAYOUT");
    cfg.push_extra(&mut argv);
    argv
}

proof fn lemma_settings_join(a: Seq<Seq<char>>, b: Seq<Seq<char>>)
    ensures
        settings_of(a + b) == settings_of(a) + settings_of(b),
    decreases b.len(),
{
    if b.len() == 0 {
        assert(a + b =~= a);
        assert(settings_of(a) + settings_of(b) =~= settings_of(a));
    } else {
        assert((a + b).drop_last() =~= a + b.drop_last());
        lemma_settings_join(a, b.drop_last());
        assert(settings_of(a + b) =~= settings_of(a) + settings_of(b));
    }
}

/// Blank lines and comments may stand anywhere: they change nothing.
pub proof fn comments_change_nothing(a: Seq<Seq<char>>, line: Seq<char>, b: Seq<Seq<char>>)
    requires
        crate::text::trimmed(line).len() == 0 || crate::text::trimmed(line)[0] == '#',
    ensures
        settings_of(a.push(line) + b) == settings_of(a + b),
{
    lemma_settings_join(a.push(line), b);
    lemma_settings_join(a, b);
    assert(a.push(line).drop_last() =~= a);
}

/// A later line overrides what earlier lines set, and leaves all else as it was.
pub proof fn later_lines_win(
    a: Seq<Seq<char>>,
    line: Seq<char>,
    key: Seq<char>,
    value: Seq<char>,
    other: Seq<char>,
)
    requires
        setting_of(line) == Some((key, value)),
        other != key,
    ensures
        value_of(settings_of(a.push(line)), key) == Some(value),
        value_of(settings_of(a.push(line)), other) == value_of(settings_of(a), other),
{
    assert(a.push(line).drop_last() =~= a);
    let all = settings_of(a.push(line));
    assert(all.last() == (key, value));
    assert(all.drop_last() =~= settings_of(a));
}

/// A file never asks for two ways of going headless at once, and the newer setting
/// decides which.
pub proof fn one_way_of_going_headless(settings: Seq<(Seq<char>, Seq<char>)>)
    ensures
        primary_part(settings).len() <= 1,
        value_of(settings, "PRIMARY_MODE"@) == Some("detach"@) ==> primary_part(settings) == seq![
            "--detach-primary"@,
        ],
{
}

/// Without settings the server is bound to the machine itself, on port 3390, and takes the
/// password from the keychain; whoever runs it is the user.
pub proof fn empty_files_ask_for_little(user: Seq<char>)
    ensures
        command_line(Seq::empty(), None) == seq![
            "macrdp"@,
            "--bind"@,
            "127.0.0.1:3390"@,
            "--keychain"@,
        ],
        user.len() > 0 ==> command_line(Seq::empty(), Some(user)) == seq![
            "macrdp"@,
            "--bind"@,
            "127.0.0.1:3390"@,
            "--username"@,
            user,
            "--keychain"@,
        ],
{
    let none = Seq::<(Seq<char>, Seq<char>)>::empty();
    assert(command_line(none, None) =~= seq![
        "macrdp"@,
        "--bind"@,
        "127.0.0.1:3390"@,
        "--keychain"@,
    ]);
    if user.len() > 0 {
        assert(command_line(none, Some(user)) =~= seq![
            "macrdp"@,
            "--bind"@,
            "127.0.0.1:3390"@,
            "--username"@,
            user,
            "--keychain"@,
        ]);
    }
}

/// A switch that was set is on exactly if it was set to `1`, and gives its flag then; one
/// that was not has its default.
pub proof fn only_one_switches_on(
    settings: Seq<(Seq<char>, Seq<char>)>,
    key: Seq<char>,
    value: Seq<char>,
    default: bool,
    flag: Seq<char>,
)
    ensures
        flag_part(settings.push((key, seq!['1'])), key, default, flag) == seq![flag],
        value != seq!['1'] ==> flag_part(settings.push((key, value)), key, default, flag).len() == 0,
        flag_part(Seq::empty(), key, true, flag) == seq![flag],
        flag_part(Seq::empty(), key, false, flag).len() == 0,
        value.len() > 0 ==> valued_part(flag, Some(value)) == seq![flag, value],
        valued_part(flag, None).len() == 0,
        value_or(settings.push((key, value)), key, flag) == value,
        value_or(Seq::empty(), key, flag) == flag,
{
}

/// A virtual display comes with its width before its height, 1920 by 1080 where they are not
/// set.
pub proof fn virtual_displays_come_with_their_size(
    settings: Seq<(Seq<char>, Seq<char>)>,
)
    requires
        switched(settings, "VIRTUAL_DISPLAY"@, false),
    ensures
        display_part(settings)[0] == "--virtual-display"@,
        display_part(settings)[1] == "--width"@,
        value_of(settings, "VD_WIDTH"@) is None ==> display_part(settings)[2] == "1920"@,
        value_of(settings, "VD_WIDTH"@) matches Some(w) ==> display_part(settings)[2] == w,
        display_part(settings)[3] == "--height"@,
        value_of(settings, "VD_HEIGHT"@) is None ==> display_part(settings)[4] == "1080"@,
        value_of(settings, "VD_HEIGHT"@) matches Some(h) ==> display_part(settings)[4] == h,
        value_of(settings, "PRIMARY_MODE"@) == Some("detach"@) ==> display_part(settings)[5]
            == "--detach-primary"@,
{
}

/// Quotes around a value are taken off, one pair of either kind, and nothing else is.
pub proof fn quotes_are_taken_off(v: Seq<char>)
    ensures
        unquoted(seq!['"'] + v + seq!['"']) == v,
        unquoted(seq!['\''] + v + seq!['\'']) == v,
        v.len() < 2 || v[0] != v.last() || (v[0] != '"' && v[0] != '\'') ==> unquoted(v) == v,
{
    let a = seq!['"'] + v + seq!['"'];
    let b = seq!['\''] + v + seq!['\''];
    assert(a.subrange(1, a.len() - 1) =~= v);
    assert(b.subrange(1, b.len() - 1) =~= v);
}

proof fn lemma_sum_holds(line: Seq<Seq<char>>, part: Seq<Seq<char>>)
    ensures
        forall|x: Seq<char>|
            line.contains(x) || part.contains(x) ==> #[trigger] (line + part).contains(x),
        forall|k: int| 0 <= k < line.len() ==> #[trigger] (line + part)[k] == line[k],
{
    let sum = line + part;
    assert forall|x: Seq<char>| line.contains(x) || part.contains(x) implies #[trigger] sum.contains(
        x,
    ) by {
        if line.contains(x) {
            let k = choose|k: int| 0 <= k < line.len() && line[k] == x;
            assert(sum[k] == x);
        } else {
            let k = choose|k: int| 0 <= k < part.len() && part[k] == x;
            assert(sum[line.len() + k] == x);
        }
    }
}

proof fn lemma_flag_holds(
    settings: Seq<(Seq<char>, Seq<char>)>,
    key: Seq<char>,
    default: bool,
    flag: Seq<char>,
)
    ensures
        value_of(settings, key) == Some(seq!['1']) ==> flag_part(settings, key, default, flag).contains(
            flag,
        ),
{
    if switched(settings, key, default) {
        assert(flag_part(settings, key, default, flag)[0] == flag);
    }
}

proof fn lemma_value_holds(flag: Seq<char>, value: Option<Seq<char>>)
    ensures
        value matches Some(v) ==> v.len() > 0 ==> valued_part(flag, value).contains(flag)
            && valued_part(flag, value).contains(v),
{
    if value is Some && value->0.len() > 0 {
        assert(valued_part(flag, value)[0] == flag);
        assert(valued_part(flag, value)[1] == value->0);
    }
}

/// Every switch that is on gives its own flag, and every value comes after its own.
pub proof fn each_switch_gives_its_flag(
    settings: Seq<(Seq<char>, Seq<char>)>,
    user: Option<Seq<char>>,
)
    ensures
        value_of(settings, "USE_KEYCHAIN"@) == Some(seq!['1']) ==> command_line(settings, user).contains(
            "--keychain"@,
        ),
        value_of(settings, "ENABLE_H264"@) == Some(seq!['1']) ==> command_line(settings, user).contains(
            "--enable-h264"@,
        ),
        value_of(settings, "ENABLE_AAC"@) == Some(seq!['1']) ==> command_line(settings, user).contains(
            "--enable-aac"@,
        ),
        value_of(settings, "HIDPI"@) == Some(seq!['1']) ==> command_line(settings, user).contains(
            "--hidpi"@,
        ),
        value_of(settings, "UNMINIMIZE"@) == Some(seq!['1']) ==> command_line(settings, user).contains(
            "--unminimize-on-switch"@,
        ),
        value_of(settings, "ALT_TAB_SWITCH"@) == Some(seq!['1']) ==> command_line(settings, user).contains(
            "--alt-tab-switch"@,
        ),
        value_of(settings, "APP_SWITCHER_HUD"@) == Some(seq!['1']) ==> command_line(settings, user).contains(
            "--app-switcher-hud"@,
        ),
        value_of(settings, "MAP_CTRL_TO_CMD"@) == Some(seq!['1']) ==> command_line(settings, user).contains(
            "--map-ctrl-to-cmd"@,
        ),
        value_of(settings, "NO_REMAP_APPS"@) matches Some(v) ==> v.len() > 0 ==> command_line(
            settings,
            user,
        ).contains("--no-remap-apps"@) && command_line(settings, user).contains(v),
        value_of(settings, "ENABLE_DRIVE_REDIRECTION"@) == Some(seq!['1']) ==> command_line(settings, user).contains(
            "--enable-drive-redirection"@,
        ),
        value_of(settings, "ENABLE_SMARTCARD_REDIRECTION"@) == Some(seq!['1']) ==> command_line(settings, user).contains(
            "--enable-smartcard-redirection"@,
        ),
        value_of(settings, "ENABLE_UDP_MULTITRANSPORT"@) == Some(seq!['1']) ==> command_line(settings, user).contains(
            "--enable-udp-multitransport"@,
        ),
        value_of(settings, "FORK_WORKERS"@) == Some(seq!['1']) ==> command_line(settings, user).contains(
            "--fork-workers"@,
        ),
        value_of(settings, "KEYBOARD_LAYOUT"@) matches Some(v) ==> v.len() > 0 ==> command_line(
            settings,
            user,
        ).contains("--keyboard-layout"@) && command_line(settings, user).contains(v),
        value_of(settings, "VIRTUAL_DISPLAY"@) == Some(seq!['1']) ==> command_line(
            settings,
            user,
        ).contains("--virtual-display"@),
        value_of(settings, "BIND"@) matches Some(v) ==> command_line(settings, user)[2] == v,
        value_of(settings, "USERNAME"@) matches Some(v) ==> v.len() > 0 ==> command_line(
            settings,
            user,
        ).contains(v),
{
    let start = seq!["macrdp"@, "--bind"@, value_or(settings, "BIND"@, "127.0.0.1:3390"@)];
    let named = valued_part("--username"@, user_of(settings, user));
    lemma_sum_holds(start, named);
    let line = start + named;
    let part = flag_part(settings, "USE_KEYCHAIN"@, true, "--keychain"@);
    lemma_sum_holds(line, part);
    lemma_flag_holds(settings, "USE_KEYCHAIN"@, true, "--keychain"@);
    let line = line + part;
    let part = flag_part(settings, "ENABLE_H264"@, false, "--enable-h264"@);
    lemma_sum_holds(line, part);
    lemma_flag_holds(settings, "ENABLE_H264"@, false, "--enable-h264"@);
    let line = line + part;
    let part = flag_part(settings, "ENABLE_AAC"@, false, "--enable-aac"@);
    lemma_sum_holds(line, part);
    lemma_flag_holds(settings, "ENABLE_AAC"@, false, "--enable-aac"@);
    let line = line + part;
    let part = flag_part(settings, "HIDPI"@, false, "--hidpi"@);
    lemma_sum_holds(line, part);
    lemma_flag_holds(settings, "HIDPI"@, false, "--hidpi"@);
    let line = line + part;
    let part = flag_part(settings, "UNMINIMIZE"@, false, "--unminimize-on-switch"@);
    lemma_sum_holds(line, part);
    lemma_flag_holds(settings, "UNMINIMIZE"@, false, "--unminimize-on-switch"@);
    let line = line + part;
    let part = flag_part(settings, "ALT_TAB_SWITCH"@, false, "--alt-tab-switch"@);
    lemma_sum_holds(line, part);
    lemma_flag_holds(settings, "ALT_TAB_SWITCH"@, false, "--alt-tab-switch"@);
    let line = line + part;
    let part = flag_part(settings, "APP_SWITCHER_HUD"@, false, "--app-switcher-hud"@);
    lemma_sum_holds(line, part);
    lemma_flag_holds(settings, "APP_SWITCHER_HUD"@, false, "--app-switcher-hud"@);
    let line = line + part;
    let part = flag_part(settings, "MAP_CTRL_TO_CMD"@, false, "--map-ctrl-to-cmd"@);
    lemma_sum_holds(line, part);
    lemma_flag_holds(settings, "MAP_CTRL_TO_CMD"@, false, "--map-ctrl-to-cmd"@);
    let line = line + part;
    let part = valued_part("--no-remap-apps"@, value_of(settings, "NO_REMAP_APPS"@));
    lemma_sum_holds(line, part);
    lemma_value_holds("--no-remap-apps"@, value_of(settings, "NO_REMAP_APPS"@));
    let line = line + part;
    let part = flag_part(settings, "ENABLE_DRIVE_REDIRECTION"@, false, "--enable-drive-redirection"@);
    lemma_sum_holds(line, part);
    lemma_flag_holds(settings, "ENABLE_DRIVE_REDIRECTION"@, false, "--enable-drive-redirection"@);
    let line = line + part;
    let part = flag_part(settings, "ENABLE_SMARTCARD_REDIRECTION"@, false, "--enable-smartcard-redirection"@);
    lemma_sum_holds(line, part);
    lemma_flag_holds(settings, "ENABLE_SMARTCARD_REDIRECTION"@, false, "--enable-smartcard-redirection"@);
    let line = line + part;
    let part = flag_part(settings, "ENABLE_UDP_MULTITRANSPORT"@, false, "--enable-udp-multitransport"@);
    lemma_sum_holds(line, part);
    lemma_flag_holds(settings, "ENABLE_UDP_MULTITRANSPORT"@, false, "--enable-udp-multitransport"@);
    let line = line + part;
    let part = flag_part(settings, "FORK_WORKERS"@, false, "--fork-workers"@);
    lemma_sum_holds(line, part);
    lemma_flag_holds(settings, "FORK_WORKERS"@, false, "--fork-workers"@);
    let line = line + part;
    let part = display_part(settings);
    lemma_sum_holds(line, part);
    if switched(settings, "VIRTUAL_DISPLAY"@, false) {
        assert(part[0] == "--virtual-display"@);
    }
    let line = line + part;
    let part = valued_part("--keyboard-layout"@, value_of(settings, "KEYBOARD_LAYOUT"@));
    lemma_sum_holds(line, part);
    lemma_value_holds("--keyboard-layout"@, value_of(settings, "KEYBOARD_LAYOUT"@));
    let line = line + part;
    let part = extra_part(settings);
    lemma_sum_holds(line, part);
    let line = line + part;
    lemma_value_holds("--username"@, user_of(settings, user));
    assert(line == command_line(settings, user));
}

} // verus!
