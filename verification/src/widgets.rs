use vstd::prelude::*;
use crate::perf::TimeSpan;
use crate::text::{decimal, decimal_string, join3, char_text};
use crate::json::chars_of;

verus! {

/// The debug information window: whether it is shown and the last error met.
#[derive(Debug)]
pub struct DebugWindow {
    pub show: bool,
    last_error: Option<String>,
}

impl DebugWindow {
    /// Whether the window is shown: its `show` field.
    pub closed spec fn shown(&self) -> bool {
        self.show
    }

    /// The last error recorded, as `last_error` gives it.
    pub closed spec fn error(&self) -> Option<Seq<char>> {
        match self.last_error {
            Some(e) => Some(e@),
            None => None,
        }
    }

    /// A hidden window with no error.
    pub fn new() -> (r: Self)
        ensures
            !r.shown(),
            r.error() is None,
    {
        DebugWindow { show: false, last_error: None }
    }

    /// Whether the window is shown.
    pub fn is_shown(&self) -> (r: bool)
        ensures
            r == self.shown(),
    {
        self.show
    }

    /// Shows or hides the window.
    pub fn set_shown(&mut self, show: bool)
        ensures
            final(self).shown() == show,
            final(self).error() == old(self).error(),
    {
        self.show = show;
    }

    /// Records `error` as the last error.
    pub fn set_error(&mut self, error: String)
        ensures
            final(self).error() == Some(error@),
            final(self).shown() == old(self).shown(),
    {
        self.last_error = Some(error);
    }

    /// The last error recorded.
    pub fn last_error(&self) -> (r: Option<&String>)
        ensures
            match r {
                Some(e) => self.error() == Some(e@),
                None => self.error() is None,
            },
    {
        match &self.last_error {
            Some(e) => Some(e),
            None => None,
        }
    }
}

impl Default for DebugWindow {
    /// The same as `new`.
    fn default() -> (r: Self)
        ensures
            !r.shown(),
            r.error() is None,
    {
        Self::new()
    }
}

/// The status bar at the bottom of the terminal view.
#[derive(Debug)]
pub struct StatusBar;

impl StatusBar {
    /// A status bar.
    pub fn new() -> (r: Self) {
        StatusBar
    }

    /// The buffer fill shown in the bar: `used/capacity`.
    pub fn buffer_text(used: usize, capacity: usize) -> (r: String)
        ensures
            r@ == decimal(used as nat) + "/"@ + decimal(capacity as nat),
    {
        let u = decimal_string(used as u64);
        let c = decimal_string(capacity as u64);
        join3(u.as_str(), "/", c.as_str())
    }
}

impl Default for StatusBar {
    /// The same as `new`.
    fn default() -> (r: Self) {
        Self::new()
    }
}

/// `n` copies of `c`.
pub open spec fn repeat_char(c: char, n: nat) -> Seq<char>
    decreases n,
{
    if n == 0 { Seq::empty() } else { repeat_char(c, (n - 1) as nat).push(c) }
}

/// A two digit number, with a leading zero under ten.
pub open spec fn two_digits(n: nat) -> Seq<char> {
    if n < 10 { seq!['0'] + decimal(n) } else { decimal(n) }
}

/// Renders the market signal panels.
#[derive(Debug)]
pub struct SignalRenderer;

impl SignalRenderer {
    /// A signal renderer.
    pub fn new() -> (r: Self) {
        SignalRenderer
    }

    /// A gauge `width` cells wide with the first `filled` full (`█`) and the rest light (`░`).
    pub fn meter_bar(filled: usize, width: usize) -> (r: String)
        ensures
            r@ == repeat_char('█', filled as nat) + repeat_char('░', if filled < width { (width - filled) as nat } else { 0nat }),
    {
        let mut s = String::new();
        let mut i: usize = 0;
        proof {
            reveal_strlit("█");
            reveal_strlit("░");
        }
        while i < filled
            invariant
                0 <= i <= filled,
                s@ == repeat_char('█', i as nat),
            decreases filled - i,
        {
            proof {
                reveal_strlit("█");
                assert("█"@ =~= seq!['█']);
            }
            s.append("█");
            i = i + 1;
        }
        let mut j: usize = filled;
        proof {
            assert(s@ =~= repeat_char('█', filled as nat) + repeat_char('░', 0));
        }
        while j < width
            invariant
                filled <= j,
                j <= width || j == filled,
                s@ == repeat_char('█', filled as nat) + repeat_char('░', (j - filled) as nat),
            decreases width - j,
        {
            proof {
                reveal_strlit("░");
                assert("░"@ =~= seq!['░']);
            }
            s.append("░");
            proof {
                assert(repeat_char('░', (j + 1 - filled) as nat) == repeat_char('░', (j - filled) as nat).push('░'));
                assert(s@ =~= repeat_char('█', filled as nat) + repeat_char('░', (j + 1 - filled) as nat));
            }
            j = j + 1;
        }
        s
    }

    /// The time of day `HH:MM:SS` (UTC) of a moment `millis` milliseconds after the Unix epoch.
    pub fn time_of_day(millis: u64) -> (r: String)
        ensures
            ({
                let seconds = millis / 1000;
                r@ == two_digits(((seconds / 3600) % 24) as nat) + ":"@ + two_digits(((seconds / 60) % 60) as nat) + ":"@ + two_digits((seconds % 60) as nat)
            }),
    {
        let seconds = millis / 1000;
        let h = two_digit_text((seconds / 3600) % 24);
        let m = two_digit_text((seconds / 60) % 60);
        let s = two_digit_text(seconds % 60);
        let hm = join3(h.as_str(), ":", m.as_str());
        join3(hm.as_str(), ":", s.as_str())
    }
}

impl Default for SignalRenderer {
    /// The same as `new`.
    fn default() -> (r: Self) {
        Self::new()
    }
}

/// `n` with at least two digits.
fn two_digit_text(n: u64) -> (r: String)
    ensures
        r@ == two_digits(n as nat),
{
    let d = decimal_string(n);
    if n < 10 {
        proof {
            reveal_strlit("0");
        }
        crate::text::join2("0", d.as_str())
    } else {
        d
    }
}

/// The word that announces the volume in a signal line.
pub open spec fn volume_word() -> Seq<char> {
    seq!['V', 'o', 'l', 'u', 'm', 'e']
}

/// The first position at or after `i` where `w` occurs in `s`.
pub open spec fn first_occurrence(s: Seq<char>, w: Seq<char>, i: int) -> Option<int>
    decreases s.len() + 1 - i,
{
    if i < 0 || i + w.len() > s.len() {
        None
    } else if s.subrange(i, i + w.len()) == w {
        Some(i)
    } else {
        first_occurrence(s, w, i + 1)
    }
}

/// A digit or a decimal point.
pub open spec fn is_number_char(c: char) -> bool {
    ('0' <= c <= '9') || c == '.'
}

/// The longest prefix of `s` made of digits and decimal points.
pub open spec fn number_prefix(s: Seq<char>) -> Seq<char>
    decreases s.len(),
{
    if s.len() == 0 || !is_number_char(s[0]) {
        Seq::empty()
    } else {
        seq![s[0]] + number_prefix(s.drop_first())
    }
}

/// `s` without its leading spaces.
pub open spec fn skip_spaces(s: Seq<char>) -> Seq<char>
    decreases s.len(),
{
    if s.len() > 0 && s[0] == ' ' { skip_spaces(s.drop_first()) } else { s }
}

/// The volume text of a signal line: the digits and decimal points that follow its
/// first `Volume` and the spaces after it; none when the word does not occur.
pub open spec fn signal_volume(s: Seq<char>) -> Option<Seq<char>> {
    match first_occurrence(s, volume_word(), 0) {
        Some(i) => Some(number_prefix(skip_spaces(s.skip(i + 6)))),
        None => None,
    }
}

/// The text of the total volume a signal line reports (see `signal_volume`), which
/// the order book widget reads as a number.
pub fn signal_volume_text(signal: &str) -> (r: Option<String>)
    ensures
        match signal_volume(signal@) {
            Some(t) => r matches Some(x) && x@ == t,
            None => r is None,
        },
{
    let s = chars_of(signal);
    let n = s.len();
    if n < 6 {
        proof {
            assert(first_occurrence(s@, volume_word(), 0) is None);
        }
        return None;
    }
    let mut i: usize = 0;
    let mut found: Option<usize> = None;
    while i <= n - 6
        invariant_except_break
            found is None,
        invariant
            n == s@.len(),
            n >= 6,
            0 <= i <= n - 5,
            first_occurrence(s@, volume_word(), 0) == first_occurrence(s@, volume_word(), i as int),
        ensures
            match found {
                Some(k) => first_occurrence(s@, volume_word(), 0) == Some(k as int) && k + 6 <= n,
                None => first_occurrence(s@, volume_word(), 0) is None,
            },
        decreases n - i,
    {
        let hit = s[i] == 'V' && s[i + 1] == 'o' && s[i + 2] == 'l' && s[i + 3] == 'u' && s[i + 4] == 'm' && s[i + 5] == 'e';
        proof {
            if hit {
                assert(s@.subrange(i as int, i + 6) =~= volume_word());
            } else {
                if s@.subrange(i as int, i + 6) == volume_word() {
                    assert(s@.subrange(i as int, i + 6)[0] == 'V');
                    assert(s@.subrange(i as int, i + 6)[1] == 'o');
                    assert(s@.subrange(i as int, i + 6)[2] == 'l');
                    assert(s@.subrange(i as int, i + 6)[3] == 'u');
                    assert(s@.subrange(i as int, i + 6)[4] == 'm');
                    assert(s@.subrange(i as int, i + 6)[5] == 'e');
                }
            }
        }
        if hit {
            found = Some(i);
            break;
        }
        i = i + 1;
    }
    match found {
        None => None,
        Some(k) => {
            let mut start = k + 6;
            while start < n && s[start] == ' '
                invariant
                    n == s@.len(),
                    k + 6 <= start <= n,
                    skip_spaces(s@.skip(k + 6)) == skip_spaces(s@.skip(start as int)),
                decreases n - start,
            {
                proof {
                    assert(s@.skip(start as int).drop_first() =~= s@.skip(start + 1));
                }
                start = start + 1;
            }
            proof {
                if start < n {
                    assert(s@.skip(start as int)[0] == s@[start as int]);
                }
                assert(skip_spaces(s@.skip(start as int)) == s@.skip(start as int));
            }
            let mut out = String::new();
            let mut j: usize = start;
            proof {
                assert(s@.subrange(start as int, start as int) =~= Seq::<char>::empty());
            }
            while j < n && (('0' <= s[j] && s[j] <= '9') || s[j] == '.')
                invariant
                    n == s@.len(),
                    start <= j <= n,
                    out@ == s@.subrange(start as int, j as int),
                    number_prefix(s@.skip(start as int)) == out@ + number_prefix(s@.skip(j as int)),
                decreases n - j,
            {
                proof {
                    assert(s@.skip(j as int).drop_first() =~= s@.skip(j + 1));
                    assert(s@.subrange(start as int, j + 1) =~= s@.subrange(start as int, j as int).push(s@[j as int]));
                    assert(out@ + number_prefix(s@.skip(j as int)) =~= out@.push(s@[j as int]) + number_prefix(s@.skip(j + 1)));
                }
                let one = char_text(s[j]);
                out.append(one.as_str());
                j = j + 1;
            }
            proof {
                if j < n {
                    assert(!is_number_char(s@.skip(j as int)[0]));
                }
                assert(number_prefix(s@.skip(j as int)) =~= Seq::<char>::empty());
                assert(out@ + Seq::<char>::empty() =~= out@);
            }
            Some(out)
        },
    }
}

/// Size class of a trade marker on the price chart.
#[derive(Debug, Clone, Copy, PartialEq, Eq, Structural)]
pub enum TradeCircleSize {
    Small,
    Medium,
    Large,
}

impl TradeCircleSize {
    /// The marker drawn for a trade of this size: a dot, or a hexagon for the larger
    /// sizes; the same for buys and sells, which differ by colour only.
    pub fn get_marker(&self, is_buyer_maker: bool) -> (r: &'static str)
        ensures
            r@ == match *self {
                TradeCircleSize::Small => "●"@,
                TradeCircleSize::Medium => "⬢"@,
                TradeCircleSize::Large => "⬣"@,
            },
    {
        match (self, is_buyer_maker) {
            (TradeCircleSize::Small, false) => "●",
            (TradeCircleSize::Medium, false) => "⬢",
            (TradeCircleSize::Large, false) => "⬣",
            (TradeCircleSize::Small, true) => "●",
            (TradeCircleSize::Medium, true) => "⬢",
            (TradeCircleSize::Large, true) => "⬣",
        }
    }
}

/// The pop-up windows of the order book view.
#[derive(Debug, Clone, Copy, PartialEq, Eq, Structural, Hash)]
pub enum PopupType {
    TradingSignal,
    QuantitativeBacktest,
    Settings,
    About,
    Help,
}

/// Kinds of trading signal.
#[derive(Debug, Clone, Copy, PartialEq, Eq, Structural)]
pub enum SignalType {
    VolumeSpike,
    PriceBreakout,
    OrderImbalance,
    DeltaAnomaly,
}

/// Time frames for signals.
#[derive(Debug, Clone, Copy, PartialEq, Eq, Structural)]
pub enum TimeFrame {
    Seconds5,
    Seconds30,
    Minutes1,
    Minutes5,
    Minutes15,
}

/// Colour themes of the order book view.
#[derive(Debug, Clone, Copy, PartialEq, Eq, Structural)]
pub enum Theme {
    Dark,
    Light,
    Auto,
}

/// Display languages.
#[derive(Debug, Clone, Copy, PartialEq, Eq, Structural)]
pub enum Language {
    Chinese,
    English,
}

/// The title of a pop-up window.
pub open spec fn popup_title(p: PopupType) -> Seq<char> {
    match p {
        PopupType::TradingSignal => "交易信号"@,
        PopupType::QuantitativeBacktest => "量化回测"@,
        PopupType::Settings => "设置"@,
        PopupType::About => "关于"@,
        PopupType::Help => "帮助"@,
    }
}

/// Which pop-up windows exist and which are open.
#[derive(Debug)]
pub struct PopupManager {
    popup_states: Vec<(PopupType, bool)>,
}

impl PopupManager {
    /// For each pop-up opened at least once, whether it is open now.
    pub closed spec fn states(&self) -> Map<PopupType, bool> {
        popup_map(self.popup_states@)
    }

    pub closed spec fn wf(&self) -> bool {
        forall|i: int, j: int| 0 <= i < j < self.popup_states@.len() ==> #[trigger] self.popup_states@[i].0 != #[trigger] self.popup_states@[j].0
    }

    /// No pop-up opened yet.
    pub fn new() -> (r: Self)
        ensures
            r.wf(),
            r.states() == Map::<PopupType, bool>::empty(),
    {
        PopupManager { popup_states: Vec::new() }
    }

    fn find(&self, popup_type: PopupType) -> (r: Option<usize>)
        requires
            self.wf(),
        ensures
            match r {
                Some(i) => i < self.popup_states@.len() && self.popup_states@[i as int].0 == popup_type,
                None => forall|j: int| 0 <= j < self.popup_states@.len() ==> #[trigger] self.popup_states@[j].0 != popup_type,
            },
    {
        let mut i: usize = 0;
        while i < self.popup_states.len()
            invariant
                0 <= i <= self.popup_states@.len(),
                forall|j: int| 0 <= j < i ==> #[trigger] self.popup_states@[j].0 != popup_type,
            decreases self.popup_states.len() - i,
        {
            if self.popup_states[i].0 == popup_type {
                return Some(i);
            }
            i = i + 1;
        }
        None
    }

    /// Opens `popup_type`.
    pub fn open_popup(&mut self, popup_type: PopupType)
        requires
            old(self).wf(),
        ensures
            final(self).wf(),
            final(self).states() == old(self).states().insert(popup_type, true),
    {
        let ghost s0 = self.popup_states@;
        match self.find(popup_type) {
            Some(i) => {
                self.popup_states.set(i, (popup_type, true));
                proof {
                    lemma_popup_update(s0, i as int, true);
                }
            },
            None => {
                self.popup_states.push((popup_type, true));
                proof {
                    lemma_popup_push(s0, popup_type, true);
                }
            },
        }
    }

    /// Closes `popup_type` if it was ever opened.
    pub fn close_popup(&mut self, popup_type: PopupType)
        requires
            old(self).wf(),
        ensures
            final(self).wf(),
            final(self).states() == (if old(self).states().dom().contains(popup_type) {
                old(self).states().insert(popup_type, false)
            } else {
                old(self).states()
            }),
    {
        let ghost s0 = self.popup_states@;
        match self.find(popup_type) {
            Some(i) => {
                proof {
                    lemma_popup_get(s0, i as int);
                }
                self.popup_states.set(i, (popup_type, false));
                proof {
                    lemma_popup_update(s0, i as int, false);
                }
            },
            None => {
                proof {
                    lemma_popup_absent(s0, popup_type);
                }
            },
        }
    }

    /// Whether `popup_type` is open.
    pub fn is_popup_open(&self, popup_type: PopupType) -> (r: bool)
        requires
            self.wf(),
        ensures
            r == (self.states().dom().contains(popup_type) && self.states()[popup_type]),
    {
        match self.find(popup_type) {
            Some(i) => {
                proof {
                    lemma_popup_get(self.popup_states@, i as int);
                }
                self.popup_states[i].1
            },
            None => {
                proof {
                    lemma_popup_absent(self.popup_states@, popup_type);
                }
                false
            },
        }
    }

    /// The title of a pop-up window.
    pub fn window_title(popup_type: PopupType) -> (r: &'static str)
        ensures
            r@ == popup_title(popup_type),
    {
        match popup_type {
            PopupType::TradingSignal => "交易信号",
            PopupType::QuantitativeBacktest => "量化回测",
            PopupType::Settings => "设置",
            PopupType::About => "关于",
            PopupType::Help => "帮助",
        }
    }
}

/// The map the entries of `s` describe, a later entry winning.
pub open spec fn popup_map(s: Seq<(PopupType, bool)>) -> Map<PopupType, bool>
    decreases s.len(),
{
    if s.len() == 0 { Map::empty() } else { popup_map(s.drop_last()).insert(s.last().0, s.last().1) }
}

proof fn lemma_popup_absent(s: Seq<(PopupType, bool)>, k: PopupType)
    requires
        forall|j: int| 0 <= j < s.len() ==> #[trigger] s[j].0 != k,
    ensures
        !popup_map(s).dom().contains(k),
    decreases s.len(),
{
    if s.len() > 0 {
        assert forall|j: int| 0 <= j < s.len() - 1 implies #[trigger] s.drop_last()[j].0 != k by {
            assert(s.drop_last()[j] == s[j]);
        };
        lemma_popup_absent(s.drop_last(), k);
        assert(s[s.len() - 1].0 != k);
    }
}

proof fn lemma_popup_get(s: Seq<(PopupType, bool)>, i: int)
    requires
        0 <= i < s.len(),
        forall|a: int, b: int| 0 <= a < b < s.len() ==> #[trigger] s[a].0 != #[trigger] s[b].0,
    ensures
        popup_map(s).dom().contains(s[i].0),
        popup_map(s)[s[i].0] == s[i].1,
    decreases s.len(),
{
    if i < s.len() - 1 {
        lemma_popup_get(s.drop_last(), i);
        assert(s.drop_last()[i] == s[i]);
        assert(s[i].0 != s[s.len() - 1].0);
    }
}

proof fn lemma_popup_update(s: Seq<(PopupType, bool)>, i: int, v: bool)
    requires
        0 <= i < s.len(),
        forall|a: int, b: int| 0 <= a < b < s.len() ==> #[trigger] s[a].0 != #[trigger] s[b].0,
    ensures
        popup_map(s.update(i, (s[i].0, v))) == popup_map(s).insert(s[i].0, v),
        forall|a: int, b: int| 0 <= a < b < s.len() ==> #[trigger] s.update(i, (s[i].0, v))[a].0 != #[trigger] s.update(i, (s[i].0, v))[b].0,
    decreases s.len(),
{
    let t = s.update(i, (s[i].0, v));
    assert forall|a: int, b: int| 0 <= a < b < s.len() implies #[trigger] t[a].0 != #[trigger] t[b].0 by {
        assert(t[a].0 == s[a].0 && t[b].0 == s[b].0);
    };
    if i == s.len() - 1 {
        assert(t.drop_last() =~= s.drop_last());
        assert(popup_map(t) =~= popup_map(s).insert(s[i].0, v));
    } else {
        lemma_popup_update(s.drop_last(), i, v);
        assert(t.drop_last() =~= s.drop_last().update(i, (s[i].0, v)));
        assert(s[i].0 != s[s.len() - 1].0);
        assert(popup_map(t) =~= popup_map(s).insert(s[i].0, v));
    }
}

proof fn lemma_popup_push(s: Seq<(PopupType, bool)>, k: PopupType, v: bool)
    requires
        forall|a: int, b: int| 0 <= a < b < s.len() ==> #[trigger] s[a].0 != #[trigger] s[b].0,
        forall|j: int| 0 <= j < s.len() ==> #[trigger] s[j].0 != k,
    ensures
        popup_map(s.push((k, v))) == popup_map(s).insert(k, v),
        forall|a: int, b: int| 0 <= a < b < s.len() + 1 ==> #[trigger] s.push((k, v))[a].0 != #[trigger] s.push((k, v))[b].0,
{
    assert(s.push((k, v)).drop_last() =~= s);
    let t = s.push((k, v));
    assert forall|a: int, b: int| 0 <= a < b < s.len() + 1 implies #[trigger] t[a].0 != #[trigger] t[b].0 by {
        if b == s.len() {
            assert(t[a] == s[a]);
        } else {
            assert(t[a] == s[a] && t[b] == s[b]);
        }
    };
}

/// Screens of the data source selection interface.
#[derive(Debug, Clone, Copy, PartialEq, Eq, Structural)]
pub enum SelectionUIState {
    ShowingList,
    LaunchingProvider,
    LaunchCompleted,
    ShowingError,
}

/// What the selection interface asks of the application after a key.
#[derive(Debug, Clone, Copy, PartialEq, Eq, Structural)]
pub enum SelectionAction {
    /// Nothing to do.
    NoAction,
    LaunchProvider,
    Quit,
    ShowHelp,
    Complete,
}

/// Quality of the market data connection.
#[derive(Debug, Clone, Copy, PartialEq, Eq, Structural)]
pub enum ConnectionQuality {
    Excellent,
    Good,
    Fair,
    Poor,
}

/// State of the market data connection.
#[derive(Debug, Clone, Copy, PartialEq, Eq, Structural)]
pub struct ConnectionStatus {
    pub is_connected: bool,
    pub is_reconnecting: bool,
    pub connection_quality: ConnectionQuality,
    /// When the last message came, in milliseconds on a monotonic clock.
    pub last_message_time: Option<u64>,
}

impl Default for ConnectionStatus {
    /// Disconnected, not reconnecting, poor quality, no message yet.
    fn default() -> (r: Self)
        ensures
            r == (ConnectionStatus { is_connected: false, is_reconnecting: false, connection_quality: ConnectionQuality::Poor, last_message_time: None }),
    {
        ConnectionStatus { is_connected: false, is_reconnecting: false, connection_quality: ConnectionQuality::Poor, last_message_time: None }
    }
}

/// Colour themes of the threaded interface.
#[derive(Debug, Clone, Copy, PartialEq, Eq, Structural)]
pub enum UITheme {
    Dark,
    Light,
    HighContrast,
}

/// What the render thread reports.
#[derive(Debug)]
pub enum RenderStatus {
    FrameCompleted { frame_time: TimeSpan, commands_processed: usize },
    RenderError(String),
    PerformanceWarning(String),
}

} // verus!
