//! Decisions of the application shell: the global shortcut, the tray
//! menu, and the names of the per-monitor selection windows.
use vstd::prelude::*;
use vstd::string::StringExecFns;

verus! {

/// Key combination that starts a capture, or stops a long one.
pub open spec fn default_shortcut_text() -> Seq<char> {
    seq!['C', 'o', 'm', 'm', 'a', 'n', 'd', 'O', 'r', 'C', 'o', 'n', 't', 'r', 'o', 'l', '+', 'S', 'h', 'i', 'f', 't', '+', 'X']
}

/// The global shortcut registered at start-up.
pub fn default_shortcut() -> (s: &'static str)
    ensures
        s@ == default_shortcut_text(),
{
    let s = "CommandOrControl+Shift+X";
    proof {
        reveal_strlit("CommandOrControl+Shift+X");
    }
    s
}

/// What a press of the global shortcut does.
#[derive(Debug, Clone, Copy, PartialEq, Eq, Structural)]
pub enum ShortcutAction {
    /// The key was released: nothing.
    Ignore,
    /// A long capture runs: signal it to stop.
    StopLongCapture,
    /// Start a new capture.
    BeginCapture,
}

/// Only a press acts; it stops a running long capture, and otherwise
/// begins a capture.
pub fn shortcut_action(pressed: bool, long_capture_active: bool) -> (a: ShortcutAction)
    ensures
        a == if !pressed {
            ShortcutAction::Ignore
        } else if long_capture_active {
            ShortcutAction::StopLongCapture
        } else {
            ShortcutAction::BeginCapture
        },
{
    if !pressed {
        ShortcutAction::Ignore
    } else if long_capture_active {
        ShortcutAction::StopLongCapture
    } else {
        ShortcutAction::BeginCapture
    }
}

/// Entries of the tray menu.
#[derive(Debug, Clone, Copy, PartialEq, Eq, Structural)]
pub enum TrayCommand {
    Capture,
    Stop,
    Show,
    Quit,
}

/// Identifier of a tray menu entry.
pub open spec fn tray_id_text(c: TrayCommand) -> Seq<char> {
    match c {
        TrayCommand::Capture => seq!['c', 'a', 'p', 't', 'u', 'r', 'e'],
        TrayCommand::Stop => seq!['s', 't', 'o', 'p'],
        TrayCommand::Show => seq!['s', 'h', 'o', 'w'],
        TrayCommand::Quit => seq!['q', 'u', 'i', 't'],
    }
}

/// The entry that a menu identifier names, if any.
pub open spec fn tray_command_of(id: Seq<char>) -> Option<TrayCommand> {
    if id == tray_id_text(TrayCommand::Capture) {
        Some(TrayCommand::Capture)
    } else if id == tray_id_text(TrayCommand::Stop) {
        Some(TrayCommand::Stop)
    } else if id == tray_id_text(TrayCommand::Show) {
        Some(TrayCommand::Show)
    } else if id == tray_id_text(TrayCommand::Quit) {
        Some(TrayCommand::Quit)
    } else {
        None
    }
}

/// The identifier that the tray menu gives an entry.
pub fn tray_menu_id(c: TrayCommand) -> (id: &'static str)
    ensures
        id@ == tray_id_text(c),
{
    match c {
        TrayCommand::Capture => {
            proof {
                reveal_strlit("capture");
            }
            "capture"
        },
        TrayCommand::Stop => {
            proof {
                reveal_strlit("stop");
            }
            "stop"
        },
        TrayCommand::Show => {
            proof {
                reveal_strlit("show");
            }
            "show"
        },
        TrayCommand::Quit => {
            proof {
                reveal_strlit("quit");
            }
            "quit"
        },
    }
}

/// The entry that a clicked menu identifier names; unknown identifiers
/// do nothing.
pub fn tray_command(id: &str) -> (c: Option<TrayCommand>)
    ensures
        c == tray_command_of(id@),
{
    let given = id.to_owned();
    if given == tray_menu_id(TrayCommand::Capture).to_owned() {
        Some(TrayCommand::Capture)
    } else if given == tray_menu_id(TrayCommand::Stop).to_owned() {
        Some(TrayCommand::Stop)
    } else if given == tray_menu_id(TrayCommand::Show).to_owned() {
        Some(TrayCommand::Show)
    } else if given == tray_menu_id(TrayCommand::Quit).to_owned() {
        Some(TrayCommand::Quit)
    } else {
        None
    }
}

/// Every tray entry is found again from its identifier.
pub proof fn lemma_tray_ids_round_trip(c: TrayCommand)
    ensures
        tray_command_of(tray_id_text(c)) == Some(c),
{
    assert(tray_id_text(TrayCommand::Capture) != tray_id_text(TrayCommand::Stop));
    assert(tray_id_text(TrayCommand::Capture) != tray_id_text(TrayCommand::Show));
    assert(tray_id_text(TrayCommand::Capture) != tray_id_text(TrayCommand::Quit));
    assert(tray_id_text(TrayCommand::Stop)[1] != tray_id_text(TrayCommand::Show)[1]);
    assert(tray_id_text(TrayCommand::Stop) != tray_id_text(TrayCommand::Quit));
    assert(tray_id_text(TrayCommand::Show) != tray_id_text(TrayCommand::Quit));
}

/// Decimal digit character.
pub open spec fn digit_char(d: nat) -> char {
    ((48 + d) as u8) as char
}

/// Decimal notation of a number, without leading zeros.
pub open spec fn decimal(n: nat) -> Seq<char>
    decreases n,
{
    if n < 10 {
        seq![digit_char(n)]
    } else {
        decimal(n / 10).push(digit_char(n % 10))
    }
}

fn digit_str(d: u32) -> (s: &'static str)
    requires
        d < 10,
    ensures
        s@ == seq![digit_char(d as nat)],
{
    proof {
        reveal_strlit("0");
        reveal_strlit("1");
        reveal_strlit("2");
        reveal_strlit("3");
        reveal_strlit("4");
        reveal_strlit("5");
        reveal_strlit("6");
        reveal_strlit("7");
        reveal_strlit("8");
        reveal_strlit("9");
    }
    if d == 0 {
        "0"
    } else if d == 1 {
        "1"
    } else if d == 2 {
        "2"
    } else if d == 3 {
        "3"
    } else if d == 4 {
        "4"
    } else if d == 5 {
        "5"
    } else if d == 6 {
        "6"
    } else if d == 7 {
        "7"
    } else if d == 8 {
        "8"
    } else {
        "9"
    }
}

fn push_decimal(s: &mut String, n: u32)
    ensures
        final(s)@ == old(s)@ + decimal(n as nat),
    decreases n,
{
    if n >= 10 {
        push_decimal(s, n / 10);
    }
    s.append(digit_str(n % 10));
}

/// Text that starts the name of every selection window.
pub open spec fn overlay_label_prefix() -> Seq<char> {
    seq!['o', 'v', 'e', 'r', 'l', 'a', 'y', '-']
}

/// Name of the selection window of a monitor.
pub fn overlay_label(monitor_id: u32) -> (label: String)
    ensures
        label@ == overlay_label_prefix() + decimal(monitor_id as nat),
{
    let mut label = "overlay-".to_owned();
    proof {
        reveal_strlit("overlay-");
    }
    push_decimal(&mut label, monitor_id);
    label
}

/// Page that a monitor's selection window loads.
pub open spec fn overlay_url_prefix() -> Seq<char> {
    seq![
        'i', 'n', 'd', 'e', 'x', '.', 'h', 't', 'm', 'l', '?', 'm', 'o', 'd', 'e', '=', 'o', 'v', 'e', 'r', 'l',
        'a', 'y', '&', 'm', 'o', 'n', 'i', 't', 'o', 'r', 'I', 'd', '=',
    ]
}

/// Address of the page of a monitor's selection window.
pub fn overlay_url(monitor_id: u32) -> (url: String)
    ensures
        url@ == overlay_url_prefix() + decimal(monitor_id as nat),
{
    let mut url = "index.html?mode=overlay&monitorId=".to_owned();
    proof {
        reveal_strlit("index.html?mode=overlay&monitorId=");
    }
    push_decimal(&mut url, monitor_id);
    url
}

/// Whether a window name is that of a selection window.
pub fn is_overlay_label(label: &str) -> (r: bool)
    ensures
        r == (label@.len() >= 8 && label@.subrange(0, 8) == overlay_label_prefix()),
{
    broadcast use vstd::string::next_postcondition, vstd::string::axiom_spec_iter;

    let prefix = "overlay-";
    proof {
        reveal_strlit("overlay-");
    }
    let mut given = label.chars();
    let mut wanted = prefix.chars();
    let mut i: usize = 0;
    while i < 8
        invariant
            i <= 8,
            prefix@ == overlay_label_prefix(),
            vstd::std_specs::iter::IteratorSpec::remaining(&given) == label@.skip(i as int),
            vstd::std_specs::iter::IteratorSpec::remaining(&wanted) == overlay_label_prefix().skip(i as int),
            label@.len() >= i,
            forall|j: int| 0 <= j < i ==> label@[j] == overlay_label_prefix()[j],
        decreases 8 - i,
    {
        let g = given.next();
        let w = wanted.next();
        match (g, w) {
            (Some(x), Some(y)) => {
                if x != y {
                    return false;
                }
            },
            _ => {
                return false;
            },
        }
        i = i + 1;
    }
    proof {
        assert(label@.subrange(0, 8) =~= overlay_label_prefix());
    }
    true
}

/// Every name given to a selection window is recognised as one.
pub proof fn lemma_overlay_label_recognised(monitor_id: nat)
    ensures
        ({
            let label = overlay_label_prefix() + decimal(monitor_id);
            label.len() >= 8 && label.subrange(0, 8) == overlay_label_prefix()
        }),
{
    let label = overlay_label_prefix() + decimal(monitor_id);
    assert(label.subrange(0, 8) =~= overlay_label_prefix());
}

} // verus!
