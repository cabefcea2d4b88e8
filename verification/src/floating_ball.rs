//! Floating ball: its docking state and the provider sections of its panel.
//! (Window geometry is floating point and lives with the window code.)
use vstd::prelude::*;
use crate::app_config::AppType;

verus! {

/// The screen edge the ball is docked to.
#[derive(Debug, Clone, Copy, PartialEq, Eq, Structural)]
pub enum DockSide {
    Left,
    Right,
    Top,
    Bottom,
}

/// Docking state: the edge (`None` = placed freely) and whether the ball
/// is in its collapsed position.
#[derive(Debug, Clone, Copy, PartialEq, Eq, Structural)]
pub struct DockState {
    pub side: Option<DockSide>,
    pub collapsed: bool,
}

/// The state at start: free, not collapsed.
pub fn dock_state() -> (r: DockState)
    ensures
        r.side is None,
        !r.collapsed,
{
    DockState { side: None, collapsed: false }
}

/// Records the docking edge and the collapsed flag.
pub fn set_dock(state: &mut DockState, side: Option<DockSide>, collapsed: bool)
    ensures
        final(state).side == side,
        final(state).collapsed == collapsed,
{
    state.side = side;
    state.collapsed = collapsed;
}

/// A provider row of the panel.
#[derive(Debug, Clone)]
pub struct BallProviderInfo {
    pub id: String,
    pub name: String,
    pub icon: Option<String>,
    pub icon_color: Option<String>,
}

/// One app's group of the panel.
#[derive(Debug)]
pub struct BallSection {
    pub app_type: String,
    pub current_provider_id: Option<String>,
    pub providers: Vec<BallProviderInfo>,
}

/// What the panel needs of one app: its name, whether it is visible and in
/// additive mode (no single current provider), its current provider and
/// its providers in display order.
#[derive(Debug)]
pub struct SectionInput {
    pub app_type: AppType,
    pub app_name: String,
    pub visible: bool,
    pub additive: bool,
    pub current_provider_id: Option<String>,
    pub providers: Vec<BallProviderInfo>,
}

/// An app has a panel group when it is visible and is not one that manages
/// its providers itself (ZCode, DSH).
pub open spec fn has_section(i: SectionInput) -> bool {
    i.visible && i.app_type != AppType::Zcode && i.app_type != AppType::Dsh
}

/// The inputs that get a group, in order.
pub open spec fn shown_inputs(ins: Seq<SectionInput>) -> Seq<SectionInput>
    decreases ins.len(),
{
    if ins.len() == 0 {
        Seq::empty()
    } else if has_section(ins.last()) {
        shown_inputs(ins.drop_last()).push(ins.last())
    } else {
        shown_inputs(ins.drop_last())
    }
}

/// A group shows the app's providers and, outside additive mode, its
/// current provider.
pub open spec fn section_of(s: BallSection, i: SectionInput) -> bool {
    &&& s.app_type@ == i.app_name@
    &&& s.current_provider_id == (if i.additive { None } else { i.current_provider_id })
    &&& s.providers@.len() == i.providers@.len()
    &&& forall|k: int|
        0 <= k < s.providers@.len() ==> {
            let (a, b) = (#[trigger] s.providers@[k], i.providers@[k]);
            a.id@ == b.id@ && a.name@ == b.name@ && a.icon == b.icon && a.icon_color == b.icon_color
        }
}

fn copy_opt(o: &Option<String>) -> (r: Option<String>)
    ensures
        r == *o,
{
    match o {
        Some(s) => Some(s.clone()),
        None => None,
    }
}

fn copy_providers(ps: &Vec<BallProviderInfo>) -> (r: Vec<BallProviderInfo>)
    ensures
        r@.len() == ps@.len(),
        forall|k: int|
            0 <= k < r@.len() ==> {
                let (a, b) = (#[trigger] r@[k], ps@[k]);
                a.id@ == b.id@ && a.name@ == b.name@ && a.icon == b.icon && a.icon_color == b.icon_color
            },
{
    let mut out: Vec<BallProviderInfo> = Vec::new();
    let mut i: usize = 0;
    while i < ps.len()
        invariant
            i <= ps@.len(),
            out@.len() == i,
            forall|k: int|
                0 <= k < i ==> {
                    let (a, b) = (#[trigger] out@[k], ps@[k]);
                    a.id@ == b.id@ && a.name@ == b.name@ && a.icon == b.icon && a.icon_color == b.icon_color
                },
        decreases ps.len() - i,
    {
        let p = &ps[i];
        out.push(
            BallProviderInfo {
                id: p.id.clone(),
                name: p.name.clone(),
                icon: copy_opt(&p.icon),
                icon_color: copy_opt(&p.icon_color),
            },
        );
        i = i + 1;
    }
    out
}

/// The panel groups, in app order (see `has_section` and `section_of`).
pub fn build_sections(inputs: &Vec<SectionInput>) -> (r: Vec<BallSection>)
    ensures
        r@.len() == shown_inputs(inputs@).len(),
        forall|k: int| 0 <= k < r@.len() ==> section_of(#[trigger] r@[k], shown_inputs(inputs@)[k]),
{
    let mut out: Vec<BallSection> = Vec::new();
    let mut i: usize = 0;
    assert(inputs@.take(0) =~= Seq::<SectionInput>::empty());
    while i < inputs.len()
        invariant
            i <= inputs@.len(),
            out@.len() == shown_inputs(inputs@.take(i as int)).len(),
            forall|k: int| 0 <= k < out@.len() ==> section_of(#[trigger] out@[k], shown_inputs(inputs@.take(i as int))[k]),
        decreases inputs.len() - i,
    {
        assert(inputs@.take(i + 1).drop_last() =~= inputs@.take(i as int));
        assert(inputs@.take(i + 1).last() == inputs@[i as int]);
        let inp = &inputs[i];
        if inp.visible && inp.app_type != AppType::Zcode && inp.app_type != AppType::Dsh {
            let current = if inp.additive {
                None
            } else {
                copy_opt(&inp.current_provider_id)
            };
            out.push(
                BallSection {
                    app_type: inp.app_name.clone(),
                    current_provider_id: current,
                    providers: copy_providers(&inp.providers),
                },
            );
        }
        i = i + 1;
    }
    assert(inputs@.take(inputs@.len() as int) =~= inputs@);
    out
}

/// The panel shows neither ZCode nor DSH (they manage their providers
/// themselves) nor a hidden app: every group comes from a visible input of
/// another app, and every visible input of another app gets a group.
pub proof fn law_sections_skip_self_managed(ins: Seq<SectionInput>)
    ensures
        forall|k: int| 0 <= k < shown_inputs(ins).len() ==> {
            let s = #[trigger] shown_inputs(ins)[k];
            &&& s.visible
            &&& s.app_type != AppType::Zcode
            &&& s.app_type != AppType::Dsh
            &&& ins.contains(s)
        },
        forall|j: int|
            0 <= j < ins.len() && (#[trigger] ins[j]).visible && ins[j].app_type != AppType::Zcode
                && ins[j].app_type != AppType::Dsh ==> shown_inputs(ins).contains(ins[j]),
    decreases ins.len(),
{
    if ins.len() > 0 {
        let init = ins.drop_last();
        law_sections_skip_self_managed(init);
        let sh = shown_inputs(ins);
        let prev = shown_inputs(init);
        assert forall|k: int| 0 <= k < sh.len() implies {
            let s = #[trigger] sh[k];
            &&& s.visible
            &&& s.app_type != AppType::Zcode
            &&& s.app_type != AppType::Dsh
            &&& ins.contains(s)
        } by {
            if k < prev.len() {
                assert(sh[k] == prev[k]);
                let s = prev[k];
                assert(init.contains(s));
                let j = choose|j: int| 0 <= j < init.len() && init[j] == s;
                assert(ins[j] == init[j]);
            } else {
                assert(sh[k] == ins.last());
                assert(ins[ins.len() - 1] == ins.last());
            }
        }
        assert forall|j: int|
            0 <= j < ins.len() && (#[trigger] ins[j]).visible && ins[j].app_type != AppType::Zcode
                && ins[j].app_type != AppType::Dsh implies sh.contains(ins[j]) by {
            if j < init.len() {
                assert(init[j] == ins[j]);
                assert(prev.contains(init[j]));
                let k = choose|k: int| 0 <= k < prev.len() && prev[k] == init[j];
                assert(sh[k] == prev[k]);
            } else {
                assert(ins[j] == ins.last());
                assert(sh[prev.len() as int] == ins.last());
            }
        }
    }
}

} // verus!
