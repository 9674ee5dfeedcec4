//! The interactive viewer's decisions: its tabs, its bit-plane selection, and
//! how a key press changes them. Drawing and the terminal stay outside.

use vstd::prelude::*;

verus! {

/// The viewer's tabs, in display order.
#[derive(Debug, Clone, Copy, PartialEq, Eq, Structural)]
pub enum Tab {
    BitPlane,
    Histogram,
    Analysis,
}

/// Position of a tab in display order.
pub open spec fn tab_index(t: Tab) -> int {
    match t {
        Tab::BitPlane => 0,
        Tab::Histogram => 1,
        Tab::Analysis => 2,
    }
}

/// The tab after `t`, wrapping from the last to the first.
pub open spec fn tab_next(t: Tab) -> Tab {
    match t {
        Tab::BitPlane => Tab::Histogram,
        Tab::Histogram => Tab::Analysis,
        Tab::Analysis => Tab::BitPlane,
    }
}

/// The tab before `t`, wrapping from the first to the last.
pub open spec fn tab_prev(t: Tab) -> Tab {
    match t {
        Tab::BitPlane => Tab::Analysis,
        Tab::Histogram => Tab::BitPlane,
        Tab::Analysis => Tab::Histogram,
    }
}

impl Tab {
    /// All tabs in display order.
    pub fn all() -> (r: [Tab; 3])
        ensures
            r@ == seq![Tab::BitPlane, Tab::Histogram, Tab::Analysis],
    {
        [Tab::BitPlane, Tab::Histogram, Tab::Analysis]
    }

    pub fn title(&self) -> (r: &'static str)
        ensures
            r@ == match *self {
                Tab::BitPlane => "Bit Planes"@,
                Tab::Histogram => "Histogram"@,
                Tab::Analysis => "Analysis"@,
            },
    {
        match self {
            Tab::BitPlane => "Bit Planes",
            Tab::Histogram => "Histogram",
            Tab::Analysis => "Analysis",
        }
    }

    pub fn index(&self) -> (r: usize)
        ensures
            r == tab_index(*self),
    {
        match self {
            Tab::BitPlane => 0,
            Tab::Histogram => 1,
            Tab::Analysis => 2,
        }
    }

    pub fn next(&self) -> (r: Self)
        ensures
            r == tab_next(*self),
    {
        match self {
            Tab::BitPlane => Tab::Histogram,
            Tab::Histogram => Tab::Analysis,
            Tab::Analysis => Tab::BitPlane,
        }
    }

    pub fn prev(&self) -> (r: Self)
        ensures
            r == tab_prev(*self),
    {
        match self {
            Tab::BitPlane => Tab::Analysis,
            Tab::Histogram => Tab::BitPlane,
            Tab::Analysis => Tab::Histogram,
        }
    }
}

/// Stepping to the previous tab undoes stepping to the next, and the other way round.
pub proof fn lemma_tab_next_prev_inverse(t: Tab)
    ensures
        tab_prev(tab_next(t)) == t,
        tab_next(tab_prev(t)) == t,
{
}

/// Stepping forward moves one position on, wrapping round the three tabs;
/// three steps come back to the start.
pub proof fn lemma_tab_next_cycles(t: Tab)
    ensures
        tab_index(tab_next(t)) == (tab_index(t) + 1) % 3,
        tab_next(tab_next(tab_next(t))) == t,
        0 <= tab_index(t) < 3,
{
}

/// What the viewer shows: the active tab and the bit plane selected.
#[derive(Debug, Clone, Copy, PartialEq, Eq, Structural)]
pub struct ViewerState {
    pub active_tab: Tab,
    /// 0 = red, 1 = green, 2 = blue.
    pub bp_channel: usize,
    /// 0 (least significant) to 7.
    pub bp_bit: u8,
}

impl ViewerState {
    /// The channel and bit selected name a bit plane of an RGB pixel.
    pub open spec fn wf(&self) -> bool {
        self.bp_channel <= 2 && self.bp_bit <= 7
    }

    /// The state the viewer opens in: the bit-plane tab, red, least significant bit.
    pub fn new() -> (r: Self)
        ensures
            r.wf(),
            r.active_tab == Tab::BitPlane,
            r.bp_channel == 0,
            r.bp_bit == 0,
    {
        ViewerState { active_tab: Tab::BitPlane, bp_channel: 0, bp_bit: 0 }
    }

    /// Name of the selected channel.
    pub fn channel_name(&self) -> (r: &'static str)
        requires
            self.wf(),
        ensures
            r@ == if self.bp_channel == 0 {
                "Red"@
            } else if self.bp_channel == 1 {
                "Green"@
            } else {
                "Blue"@
            },
    {
        if self.bp_channel == 0 {
            "Red"
        } else if self.bp_channel == 1 {
            "Green"
        } else {
            "Blue"
        }
    }
}

/// A key press, as far as the viewer tells keys apart.
#[derive(Debug, Clone, Copy, PartialEq, Eq, Structural)]
pub enum ViewerKey {
    /// `q` or Escape.
    Quit,
    /// Tab or Right.
    NextTab,
    /// Shift-Tab or Left.
    PrevTab,
    /// `r`, `g` or `b`: select channel 0, 1 or 2.
    Channel(usize),
    /// Up: the next more significant bit.
    BitUp,
    /// Down: the next less significant bit.
    BitDown,
    /// Any other key.
    Other,
}

/// What the viewer does after a key press.
#[derive(Debug, Clone, Copy, PartialEq, Eq, Structural)]
pub enum ViewerAction {
    /// Leave the viewer.
    Quit,
    /// Draw the (possibly changed) state again.
    Redraw,
    /// Extract the selected bit plane again, then draw.
    ReloadBitPlane,
}

/// The viewer's response to a key: its next state and what to do.
pub open spec fn spec_handle_key(s: ViewerState, key: ViewerKey) -> (ViewerState, ViewerAction) {
    match key {
        ViewerKey::Quit => (s, ViewerAction::Quit),
        ViewerKey::NextTab => (ViewerState { active_tab: tab_next(s.active_tab), ..s }, ViewerAction::Redraw),
        ViewerKey::PrevTab => (ViewerState { active_tab: tab_prev(s.active_tab), ..s }, ViewerAction::Redraw),
        ViewerKey::Channel(c) => if c <= 2 {
            (ViewerState { bp_channel: c, ..s }, ViewerAction::ReloadBitPlane)
        } else {
            (s, ViewerAction::Redraw)
        },
        ViewerKey::BitUp => if s.bp_bit < 7 {
            (ViewerState { bp_bit: (s.bp_bit + 1) as u8, ..s }, ViewerAction::ReloadBitPlane)
        } else {
            (s, ViewerAction::Redraw)
        },
        ViewerKey::BitDown => if s.bp_bit > 0 {
            (ViewerState { bp_bit: (s.bp_bit - 1) as u8, ..s }, ViewerAction::ReloadBitPlane)
        } else {
            (s, ViewerAction::Redraw)
        },
        ViewerKey::Other => (s, ViewerAction::Redraw),
    }
}

/// Decide how a key press changes the viewer's state and what it does next.
pub fn handle_key(state: &ViewerState, key: ViewerKey) -> (r: (ViewerState, ViewerAction))
    ensures
        r == spec_handle_key(*state, key),
{
    let s = *state;
    match key {
        ViewerKey::Quit => (s, ViewerAction::Quit),
        ViewerKey::NextTab => (ViewerState { active_tab: s.active_tab.next(), ..s }, ViewerAction::Redraw),
        ViewerKey::PrevTab => (ViewerState { active_tab: s.active_tab.prev(), ..s }, ViewerAction::Redraw),
        ViewerKey::Channel(c) => {
            if c <= 2 {
                (ViewerState { bp_channel: c, ..s }, ViewerAction::ReloadBitPlane)
            } else {
                (s, ViewerAction::Redraw)
            }
        },
        ViewerKey::BitUp => {
            if s.bp_bit < 7 {
                (ViewerState { bp_bit: s.bp_bit + 1, ..s }, ViewerAction::ReloadBitPlane)
            } else {
                (s, ViewerAction::Redraw)
            }
        },
        ViewerKey::BitDown => {
            if s.bp_bit > 0 {
                (ViewerState { bp_bit: s.bp_bit - 1, ..s }, ViewerAction::ReloadBitPlane)
            } else {
                (s, ViewerAction::Redraw)
            }
        },
        ViewerKey::Other => (s, ViewerAction::Redraw),
    }
}

/// Every key press keeps the selected bit plane a bit plane of an RGB pixel.
pub proof fn lemma_handle_key_keeps_wf(s: ViewerState, key: ViewerKey)
    requires
        s.wf(),
    ensures
        spec_handle_key(s, key).0.wf(),
{
}

/// Up then Down (below the top bit), or Down then Up (above the bottom bit),
/// comes back to the same bit plane.
pub proof fn lemma_bit_up_down_inverse(s: ViewerState)
    requires
        s.wf(),
    ensures
        s.bp_bit < 7 ==> spec_handle_key(spec_handle_key(s, ViewerKey::BitUp).0, ViewerKey::BitDown).0 == s,
        s.bp_bit > 0 ==> spec_handle_key(spec_handle_key(s, ViewerKey::BitDown).0, ViewerKey::BitUp).0 == s,
{
}

} // verus!
