use vstd::prelude::*;

use crate::cli::SortBy;
use crate::domain::{dimension_map, Aggregates, DateGranularity, Dimension};
use crate::ranking::{all_rows_sorted, is_top_rows, metric_rows, MetricRow};

pub mod dimension;
pub mod trend;

verus! {

/// The tabs of the interface: one per dimension, then the trend.
#[derive(Debug, Clone, Copy, PartialEq, Eq)]
pub enum AppTab {
    Dimension(Dimension),
    Trend,
}

impl AppTab {
    /// The next tab, wrapping around after the trend.
    #[verifier::allow_in_spec]
    pub fn next(self) -> Self
        returns
            (match self {
                AppTab::Dimension(Dimension::Ip) => AppTab::Dimension(Dimension::Path),
                AppTab::Dimension(Dimension::Path) => AppTab::Dimension(Dimension::UserAgent),
                AppTab::Dimension(Dimension::UserAgent) => AppTab::Dimension(Dimension::StatusCode),
                AppTab::Dimension(Dimension::StatusCode) => AppTab::Trend,
                AppTab::Trend => AppTab::Dimension(Dimension::Ip),
            }),
    {
        match self {
            AppTab::Dimension(Dimension::Ip) => AppTab::Dimension(Dimension::Path),
            AppTab::Dimension(Dimension::Path) => AppTab::Dimension(Dimension::UserAgent),
            AppTab::Dimension(Dimension::UserAgent) => AppTab::Dimension(Dimension::StatusCode),
            AppTab::Dimension(Dimension::StatusCode) => AppTab::Trend,
            AppTab::Trend => AppTab::Dimension(Dimension::Ip),
        }
    }

    /// The previous tab, wrapping around before the IP.
    #[verifier::allow_in_spec]
    pub fn previous(self) -> Self
        returns
            (match self {
                AppTab::Dimension(Dimension::Ip) => AppTab::Trend,
                AppTab::Dimension(Dimension::Path) => AppTab::Dimension(Dimension::Ip),
                AppTab::Dimension(Dimension::UserAgent) => AppTab::Dimension(Dimension::Path),
                AppTab::Dimension(Dimension::StatusCode) => AppTab::Dimension(Dimension::UserAgent),
                AppTab::Trend => AppTab::Dimension(Dimension::StatusCode),
            }),
    {
        match self {
            AppTab::Dimension(Dimension::Ip) => AppTab::Trend,
            AppTab::Dimension(Dimension::Path) => AppTab::Dimension(Dimension::Ip),
            AppTab::Dimension(Dimension::UserAgent) => AppTab::Dimension(Dimension::Path),
            AppTab::Dimension(Dimension::StatusCode) => AppTab::Dimension(Dimension::UserAgent),
            AppTab::Trend => AppTab::Dimension(Dimension::StatusCode),
        }
    }

    /// The position of the tab in the tab bar.
    #[verifier::allow_in_spec]
    pub fn selected_index(self) -> usize
        returns
            (match self {
                AppTab::Dimension(Dimension::Ip) => 0usize,
                AppTab::Dimension(Dimension::Path) => 1usize,
                AppTab::Dimension(Dimension::UserAgent) => 2usize,
                AppTab::Dimension(Dimension::StatusCode) => 3usize,
                AppTab::Trend => 4usize,
            }),
    {
        match self {
            AppTab::Dimension(Dimension::Ip) => 0,
            AppTab::Dimension(Dimension::Path) => 1,
            AppTab::Dimension(Dimension::UserAgent) => 2,
            AppTab::Dimension(Dimension::StatusCode) => 3,
            AppTab::Trend => 4,
        }
    }
}

/// `next` and `previous` undo each other, and `next` moves one place to the right in the tab
/// bar, wrapping around over five tabs.
pub proof fn law_tab_cycle(t: AppTab)
    ensures
        t.next().previous() == t,
        t.previous().next() == t,
        t.next().selected_index() == (t.selected_index() + 1) % 5,
        t.selected_index() < 5,
{
}

/// Different tabs sit at different places in the tab bar.
pub proof fn law_tab_index_distinct(a: AppTab, b: AppTab)
    ensures
        a.selected_index() == b.selected_index() ==> a == b,
{
}

/// A key press, as far as the interface tells keys apart.
#[derive(Debug, Clone, Copy, PartialEq, Eq)]
pub enum KeyInput {
    Char(char),
    Esc,
    Tab,
    BackTab,
    Left,
    Right,
    Up,
    Down,
    Home,
    Other,
}

/// What key presses change: the tab, the sort order, the scroll position and the trend
/// granularity.
pub struct UiState {
    pub tab: AppTab,
    pub sort_by: SortBy,
    pub scroll: usize,
    pub trend_granularity: DateGranularity,
}

/// The state after a key press, and whether the interface closes: `q` and Escape close it;
/// Tab and Right go to the next tab, Shift+Tab and Left to the previous one, each scrolling back
/// to the top; `t` and `s` switch the sort order; `h`, `d` and `m` show the trend by hour, day
/// and month, and `g` moves to the next granularity; `j` and Down scroll down one row, `k` and
/// Up scroll up one row (neither past its end); Home scrolls to the top; any other key changes
/// nothing.
pub open spec fn key_step(s: UiState, key: KeyInput) -> (UiState, bool) {
    match key {
        KeyInput::Char('q') | KeyInput::Esc => (s, true),
        KeyInput::Tab | KeyInput::Right => (UiState { tab: s.tab.next(), scroll: 0, ..s }, false),
        KeyInput::Left | KeyInput::BackTab => (
            UiState { tab: s.tab.previous(), scroll: 0, ..s },
            false,
        ),
        KeyInput::Char('t') | KeyInput::Char('s') => (
            UiState { sort_by: s.sort_by.toggled(), ..s },
            false,
        ),
        KeyInput::Char('h') => (UiState { trend_granularity: DateGranularity::Hour, ..s }, false),
        KeyInput::Char('d') => (UiState { trend_granularity: DateGranularity::Day, ..s }, false),
        KeyInput::Char('m') => (UiState { trend_granularity: DateGranularity::Month, ..s }, false),
        KeyInput::Char('g') => (
            UiState { trend_granularity: s.trend_granularity.next(), ..s },
            false,
        ),
        KeyInput::Char('j') | KeyInput::Down => (
            UiState {
                scroll: if s.scroll == usize::MAX {
                    usize::MAX
                } else {
                    (s.scroll + 1) as usize
                },
                ..s
            },
            false,
        ),
        KeyInput::Char('k') | KeyInput::Up => (
            UiState {
                scroll: if s.scroll == 0 {
                    0
                } else {
                    (s.scroll - 1) as usize
                },
                ..s
            },
            false,
        ),
        KeyInput::Home => (UiState { scroll: 0, ..s }, false),
        _ => (s, false),
    }
}

/// Scrolling down one row and back up returns to the same place, short of the last position.
pub proof fn law_scroll_down_then_up(s: UiState)
    requires
        s.scroll < usize::MAX,
    ensures
        key_step(key_step(s, KeyInput::Down).0, KeyInput::Up).0 == s,
        key_step(key_step(s, KeyInput::Char('j')).0, KeyInput::Char('k')).0 == s,
{
}

/// Going to the next tab and back returns to the same tab, scrolled to the top.
pub proof fn law_tab_there_and_back(s: UiState)
    ensures
        key_step(key_step(s, KeyInput::Right).0, KeyInput::Left).0 == (UiState { scroll: 0, ..s }),
        key_step(key_step(s, KeyInput::Left).0, KeyInput::Tab).0 == (UiState { scroll: 0, ..s }),
        key_step(key_step(s, KeyInput::Tab).0, KeyInput::BackTab).0 == (UiState { scroll: 0, ..s }),
{
}

/// Switching the sort order twice changes nothing; three granularity switches change nothing.
pub proof fn law_switches_cycle(s: UiState)
    ensures
        key_step(key_step(s, KeyInput::Char('s')).0, KeyInput::Char('s')).0 == s,
        key_step(key_step(s, KeyInput::Char('t')).0, KeyInput::Char('t')).0 == s,
        key_step(key_step(key_step(s, KeyInput::Char('g')).0, KeyInput::Char('g')).0, KeyInput::Char('g')).0
            == s,
{
}

/// `h`, `d` and `m` choose the trend granularity whatever it was, and pressing one twice is
/// pressing it once.
pub proof fn law_granularity_keys_choose(s: UiState)
    ensures
        key_step(s, KeyInput::Char('h')).0.trend_granularity == DateGranularity::Hour,
        key_step(s, KeyInput::Char('d')).0.trend_granularity == DateGranularity::Day,
        key_step(s, KeyInput::Char('m')).0.trend_granularity == DateGranularity::Month,
        key_step(key_step(s, KeyInput::Char('h')).0, KeyInput::Char('h')) == key_step(s, KeyInput::Char('h')),
        key_step(s, KeyInput::Char('d')).0 == (UiState { trend_granularity: DateGranularity::Day, ..s }),
{
}

/// Only `q` and Escape close the interface, and closing changes nothing.
pub proof fn law_only_quit_keys_close(s: UiState, key: KeyInput)
    ensures
        key_step(s, key).1 <==> (key == KeyInput::Char('q') || key == KeyInput::Esc),
        key_step(s, key).1 ==> key_step(s, key).0 == s,
{
}

/// The state of the interface.
pub struct App {
    pub aggregates: Aggregates,
    pub files_count: usize,
    pub tab: AppTab,
    pub sort_by: SortBy,
    pub top: usize,
    pub graph_items: usize,
    pub scroll: usize,
    pub trend_granularity: DateGranularity,
}

impl App {
    /// The rows of the selected dimension: all of them sorted, cut to `top`. The trend tab has
    /// no rows.
    pub fn rows(&self) -> (r: Vec<MetricRow>)
        requires
            self.aggregates.wf(),
        ensures
            match self.tab {
                AppTab::Trend => r.len() == 0,
                AppTab::Dimension(d) => is_top_rows(
                    metric_rows(r@),
                    dimension_map(self.aggregates@, d),
                    self.sort_by,
                    self.top as nat,
                ),
            },
    {
        let dimension = match self.tab {
            AppTab::Dimension(d) => d,
            AppTab::Trend => {
                return Vec::new();
            },
        };
        all_rows_sorted(self.aggregates.selected_map(dimension), self.sort_by, self.top)
    }

    /// The part of the interface that key presses change.
    pub open spec fn ui(&self) -> UiState {
        UiState {
            tab: self.tab,
            sort_by: self.sort_by,
            scroll: self.scroll,
            trend_granularity: self.trend_granularity,
        }
    }

    /// Applies a key press, as `key_step` says. Returns whether the interface should close.
    pub fn handle_key(&mut self, key: KeyInput) -> (quit: bool)
        ensures
            (final(self).ui(), quit) == key_step(old(self).ui(), key),
            final(self).aggregates == old(self).aggregates,
            final(self).files_count == old(self).files_count,
            final(self).top == old(self).top,
            final(self).graph_items == old(self).graph_items,
    {
        match key {
            KeyInput::Char('q') | KeyInput::Esc => {
                return true;
            },
            KeyInput::Tab | KeyInput::Right => {
                self.tab = self.tab.next();
                self.scroll = 0;
            },
            KeyInput::Left | KeyInput::BackTab => {
                self.tab = self.tab.previous();
                self.scroll = 0;
            },
            KeyInput::Char('t') | KeyInput::Char('s') => {
                self.sort_by = self.sort_by.toggled();
            },
            KeyInput::Char('h') => {
                self.trend_granularity = DateGranularity::Hour;
            },
            KeyInput::Char('d') => {
                self.trend_granularity = DateGranularity::Day;
            },
            KeyInput::Char('m') => {
                self.trend_granularity = DateGranularity::Month;
            },
            KeyInput::Char('g') => {
                self.trend_granularity = self.trend_granularity.next();
            },
            KeyInput::Char('j') | KeyInput::Down => {
                if self.scroll < usize::MAX {
                    self.scroll = self.scroll + 1;
                }
            },
            KeyInput::Char('k') | KeyInput::Up => {
                if self.scroll > 0 {
                    self.scroll = self.scroll - 1;
                }
            },
            KeyInput::Home => {
                self.scroll = 0;
            },
            _ => {},
        }
        false
    }

    /// Keeps the scroll position where the last page of rows still fills the view.
    pub fn clamp_scroll(&mut self, row_count: usize, visible_rows: usize)
        ensures
            final(self).scroll == if old(self).scroll <= row_count - visible_rows {
                old(self).scroll as int
            } else if row_count >= visible_rows {
                row_count - visible_rows
            } else {
                0
            },
            final(self).aggregates == old(self).aggregates,
            final(self).tab == old(self).tab,
            final(self).sort_by == old(self).sort_by,
            final(self).trend_granularity == old(self).trend_granularity,
            final(self).files_count == old(self).files_count,
            final(self).top == old(self).top,
            final(self).graph_items == old(self).graph_items,
    {
        let max_scroll = if row_count >= visible_rows {
            row_count - visible_rows
        } else {
            0
        };
        if self.scroll > max_scroll {
            self.scroll = max_scroll;
        }
    }
}

/// Switching the sort order twice gives the order back.
pub proof fn law_toggle_sort_twice(s: SortBy)
    ensures
        s.toggled().toggled() == s,
        s.toggled() != s,
{
}

} // verus!
