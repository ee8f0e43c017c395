//! The state of the user interface.
use vstd::prelude::*;
use crate::consts::N_FIELDS;
use crate::monitor::{all_wf, views, Monitor, MonitorView};
use crate::proj::Proj;

verus! {

/// The part of the screen that has the focus.
#[derive(Clone, Copy, PartialEq, Eq, Structural, Debug)]
pub enum Section {
    Tabs,
    Settings,
    Layout,
}

/// What the keys currently act on: the normal view, the list of modes
/// (scrolled by `scroll`, with the cursor on `hover`), or a line of text.
#[derive(Clone, Copy, PartialEq, Eq, Structural, Debug)]
pub enum UiMode {
    Normal,
    ModeSelect { scroll: usize, hover: usize },
    TextEdit,
}

#[derive(Debug)]
pub struct App {
    pub monitors: Vec<Monitor>,
    pub proj: Proj,
    pub tab: usize,
    pub section: Section,
    pub sel_field: usize,
    pub layout_sel: usize,
    pub ui: UiMode,
    pub buf: String,
    pub status: String,
    pub status_err: bool,
}

pub struct AppView {
    pub monitors: Seq<MonitorView>,
    pub proj: Proj,
    pub tab: int,
    pub section: Section,
    pub sel_field: int,
    pub layout_sel: int,
    pub ui: UiMode,
    pub buf: Seq<char>,
    pub status: Seq<char>,
    pub status_err: bool,
}

impl View for App {
    type V = AppView;

    open spec fn view(&self) -> AppView {
        AppView {
            monitors: views(self.monitors@),
            proj: self.proj,
            tab: self.tab as int,
            section: self.section,
            sel_field: self.sel_field as int,
            layout_sel: self.layout_sel as int,
            ui: self.ui,
            buf: self.buf@,
            status: self.status@,
            status_err: self.status_err,
        }
    }
}

impl AppView {
    /// The selections within range of the outputs when there are any, every
    /// output well formed, and, while the mode list is open, an output whose
    /// modes it lists with the cursor on one of them, at or below the first
    /// row shown.
    pub open spec fn wf(self) -> bool {
        &&& self.monitors.len() > 0 ==> 0 <= self.tab < self.monitors.len()
        &&& self.monitors.len() > 0 ==> 0 <= self.layout_sel < self.monitors.len()
        &&& 0 <= self.tab
        &&& 0 <= self.layout_sel
        &&& 0 <= self.sel_field < N_FIELDS
        &&& forall|i: int| 0 <= i < self.monitors.len() ==> (#[trigger] self.monitors[i]).wf()
        &&& (self.ui matches UiMode::ModeSelect { scroll, hover } ==> self.monitors.len() > 0 && scroll
            <= hover < self.monitors[self.tab].modes.len())
    }
}

impl App {
    pub open spec fn wf(&self) -> bool {
        self@.wf()
    }

    pub fn new(monitors: Vec<Monitor>) -> (r: App)
        ensures
            r@ == (AppView {
                monitors: views(monitors@),
                proj: Proj::Custom,
                tab: 0,
                section: Section::Settings,
                sel_field: 0,
                layout_sel: 0,
                ui: UiMode::Normal,
                buf: Seq::empty(),
                status: Seq::empty(),
                status_err: false,
            }),
            all_wf(monitors@) ==> r.wf(),
    {
        let r = App {
            monitors,
            proj: Proj::Custom,
            tab: 0,
            section: Section::Settings,
            sel_field: 0,
            layout_sel: 0,
            ui: UiMode::Normal,
            buf: String::new(),
            status: String::new(),
            status_err: false,
        };
        proof {
            if all_wf(r.monitors@) {
                assert forall|i: int| 0 <= i < r@.monitors.len() implies (
                #[trigger] r@.monitors[i]).wf() by {
                    assert(all_wf(r.monitors@) ==> r.monitors@[i].wf());
                }
            }
        }
        r
    }

    pub fn set_status(&mut self, s: String, err: bool)
        ensures
            final(self)@ == (AppView { status: s@, status_err: err, ..old(self)@ }),
    {
        self.status = s;
        self.status_err = err;
    }

    pub fn cur_mon(&self) -> (r: &Monitor)
        requires
            self.tab < self.monitors.len(),
        ensures
            *r == self.monitors@[self.tab as int],
    {
        &self.monitors[self.tab]
    }

    pub fn cur_mon_mut(&mut self) -> (r: &mut Monitor)
        requires
            old(self).tab < old(self).monitors.len(),
        ensures
            *r == old(self).monitors@[old(self).tab as int],
            final(self).monitors@ == old(self).monitors@.update(old(self).tab as int, *final(r)),
            final(self).tab == old(self).tab,
            final(self).proj == old(self).proj,
            final(self).section == old(self).section,
            final(self).sel_field == old(self).sel_field,
            final(self).layout_sel == old(self).layout_sel,
            final(self).ui == old(self).ui,
            final(self).buf == old(self).buf,
            final(self).status == old(self).status,
            final(self).status_err == old(self).status_err,
    {
        &mut self.monitors[self.tab]
    }
}

} // verus!
