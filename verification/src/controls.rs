//! The in-game panels and hotkeys: the bag and chest panel actions, the menu
//! toggles, and opening chests.

use crate::inventory::{bag_after_equip, cell_at, has_fit, spec_add, spec_equip, BagGrid, Chest, Equipment};
use crate::items::Item;
use crate::menu::{equipment_bonus, recompute_menu_stats, stats_fit, AppState, PlayerWallet};
use crate::stats::PlayerStats;
use vstd::prelude::*;

verus! {

/// What is selected in the bag and chest panels.
pub struct UISelection {
    pub selected_bag_cell: Option<(u8, u8)>,
    pub selected_chest_idx: Option<usize>,
}

impl Default for UISelection {
    fn default() -> (s: Self)
        ensures
            s.selected_bag_cell is None,
            s.selected_chest_idx is None,
    {
        UISelection { selected_bag_cell: None, selected_chest_idx: None }
    }
}

/// Bag and equipment after equipping `item`, already taken out of `cells`:
/// a bag upgrade rebuilds the bag first, and whatever the item displaces goes
/// back into the bag where it fits (and is lost where it does not).
pub open spec fn spec_equip_selected(w: u8, h: u8, cells: Seq<Option<Item>>, e: Equipment, item: Item) -> (
    u8,
    u8,
    Seq<Option<Item>>,
    Equipment,
) {
    let (w1, h1, c1) = bag_after_equip(w, h, cells, item);
    let (e2, d) = spec_equip(e, item);
    match d {
        Some(di) => (w1, h1, spec_add(w1 as int, h1 as int, c1, di), e2),
        None => (w1, h1, c1, e2),
    }
}

/// The bag cell of the selection, when one is selected.
pub open spec fn selected_cell(sel: UISelection, w: u8) -> Option<int> {
    match sel.selected_bag_cell {
        Some((x, y)) => Some(cell_at(w as int, x as int, y as int)),
        None => None,
    }
}

/// "Equip selected" in the bag panel: clears the bag selection; when the
/// selected cell holds an item, takes it out, equips it, puts what it
/// displaced back into the bag, and recomputes the equipment bonus. Returns
/// whether an item was equipped (the limbs are then rescaled).
pub fn equip_selected_bag_item(sel: &mut UISelection, bag: &mut BagGrid, equip: &mut Equipment, ps: &mut PlayerStats) -> (r: bool)
    requires
        old(bag).wf(),
        selected_cell(*old(sel), old(bag).w) matches Some(p) ==> p < old(bag).cells@.len(),
        selected_cell(*old(sel), old(bag).w) matches Some(p) ==> (old(bag).cells@[p] matches Some(it) ==> stats_fit(
            old(ps).base,
            spec_equip(*old(equip), it).0,
        )),
    ensures
        final(sel).selected_bag_cell is None,
        final(sel).selected_chest_idx == old(sel).selected_chest_idx,
        final(bag).wf(),
        final(ps).base == old(ps).base,
        r == (selected_cell(*old(sel), old(bag).w) matches Some(p) && old(bag).cells@[p] is Some),
        r ==> ({
            let p = selected_cell(*old(sel), old(bag).w).unwrap();
            let item = old(bag).cells@[p].unwrap();
            &&& (final(bag).w, final(bag).h, final(bag).cells@, *final(equip)) == spec_equip_selected(
                old(bag).w,
                old(bag).h,
                old(bag).cells@.update(p, None),
                *old(equip),
                item,
            )
            &&& final(ps).bonus == equipment_bonus(old(ps).base, *final(equip))
        }),
        !r ==> final(bag).w == old(bag).w && final(bag).h == old(bag).h && final(bag).cells@ == old(bag).cells@
            && *final(equip) == *old(equip) && *final(ps) == *old(ps),
{
    let picked = sel.selected_bag_cell.take();
    match picked {
        None => false,
        Some((x, y)) => {
            let ghost cells0 = bag.cells@;
            let taken = bag.remove_at(x, y);
            match taken {
                None => {
                    assert(bag.cells@ =~= cells0);
                    false
                },
                Some(item) => {
                    let swapped = equip.equip(item, bag);
                    match swapped {
                        Some(s) => {
                            bag.try_add(s);
                        },
                        None => {},
                    }
                    recompute_menu_stats(ps, equip);
                    true
                },
            }
        },
    }
}

/// "Take" in the chest panel: clears the chest selection; when it points at
/// an item of the chest and the bag has room for it, the item moves from the
/// chest into the bag. Returns whether it moved.
pub fn take_selected_chest_item(sel: &mut UISelection, chest: &mut Chest, bag: &mut BagGrid) -> (r: bool)
    requires
        old(bag).wf(),
    ensures
        final(sel).selected_chest_idx is None,
        final(sel).selected_bag_cell == old(sel).selected_bag_cell,
        final(bag).wf(),
        final(bag).w == old(bag).w,
        final(bag).h == old(bag).h,
        final(chest).gold == old(chest).gold,
        final(chest).tier == old(chest).tier,
        r == (old(sel).selected_chest_idx matches Some(i) && i < old(chest).items@.len() && has_fit(
            old(bag).w as int,
            old(bag).h as int,
            old(bag).cells@,
            old(chest).items@[i as int].size.0 as int,
            old(chest).items@[i as int].size.1 as int,
        )),
        r ==> ({
            let i = old(sel).selected_chest_idx.unwrap() as int;
            &&& final(chest).items@ == old(chest).items@.remove(i)
            &&& final(bag).cells@ == spec_add(old(bag).w as int, old(bag).h as int, old(bag).cells@, old(chest).items@[i])
        }),
        !r ==> final(chest).items@ == old(chest).items@ && final(bag).cells@ == old(bag).cells@,
{
    let picked = sel.selected_chest_idx.take();
    match picked {
        None => false,
        Some(idx) => {
            if idx >= chest.items.len() {
                return false;
            }
            let ghost items0 = chest.items@;
            let it = chest.items.remove(idx);
            match bag.try_add_or_return(it) {
                Ok(()) => true,
                Err(back) => {
                    chest.items.insert(idx, back);
                    assert(chest.items@ =~= items0);
                    false
                },
            }
        },
    }
}

/// Which in-game windows are open.
pub struct UIFlags {
    pub inventory_open: bool,
    pub spell_menu_open: bool,
    pub pause_menu_open: bool,
    pub pause_settings_open: bool,
}

impl Default for UIFlags {
    fn default() -> (f: Self)
        ensures
            !f.inventory_open && !f.spell_menu_open && !f.pause_menu_open && !f.pause_settings_open,
    {
        UIFlags { inventory_open: false, spell_menu_open: false, pause_menu_open: false, pause_settings_open: false }
    }
}

/// The window that should take keyboard focus. A chest is named by its
/// entity id.
#[derive(Clone, Copy, Debug, PartialEq, Eq, Structural)]
pub enum MenuFocusTarget {
    StartScreen,
    Inventory,
    Chest(u64),
    Pause,
    Spells,
}

/// A pending request to move focus to a window.
pub struct MenuFocusState {
    pub target: Option<MenuFocusTarget>,
    pub pending: bool,
}

impl Default for MenuFocusState {
    fn default() -> (m: Self)
        ensures
            m.target is None,
            !m.pending,
    {
        MenuFocusState { target: None, pending: false }
    }
}

/// The focus state right after asking for `target`.
pub open spec fn requested(target: MenuFocusTarget) -> MenuFocusState {
    MenuFocusState { target: Some(target), pending: true }
}

impl MenuFocusState {
    /// Asks for focus to move to `target`.
    pub fn request(&mut self, target: MenuFocusTarget)
        ensures
            *final(self) == requested(target),
    {
        self.target = Some(target);
        self.pending = true;
    }
}

/// The chest whose window is open, by entity id.
pub struct OpenChest(pub Option<u64>);

impl Default for OpenChest {
    fn default() -> (o: Self)
        ensures
            o.0 is None,
    {
        OpenChest(None)
    }
}

/// Whether the collision debug overlay is shown.
pub struct CollisionDebugSettings {
    pub enabled: bool,
}

impl Default for CollisionDebugSettings {
    fn default() -> (c: Self)
        ensures
            !c.enabled,
    {
        CollisionDebugSettings { enabled: false }
    }
}

/// The hotkeys pressed this frame: Tab (inventory), E (spells), Escape
/// (pause), V (camera mode), C (shoulder side), F3 (collision debug), F4
/// (clear snag markers).
pub struct UiKeys {
    pub tab: bool,
    pub key_e: bool,
    pub escape: bool,
    pub key_v: bool,
    pub key_c: bool,
    pub f3: bool,
    pub f4: bool,
}

/// What the caller applies after the toggles: flip the camera shoulder, and
/// queue the snag markers for clearing.
pub struct ToggleEffects {
    pub flip_shoulder: bool,
    pub clear_snag_markers: bool,
}

/// Tab: toggles the inventory; opening it takes focus, closing it hands focus
/// to the open chest.
pub open spec fn spec_tab(f: UIFlags, open: Option<u64>, m: MenuFocusState) -> (UIFlags, MenuFocusState) {
    let f1 = UIFlags { inventory_open: !f.inventory_open, ..f };
    if f1.inventory_open {
        (f1, requested(MenuFocusTarget::Inventory))
    } else if open is Some {
        (f1, requested(MenuFocusTarget::Chest(open.unwrap())))
    } else {
        (f1, m)
    }
}

/// E: toggles the spell menu; opening it takes focus, closing it hands focus
/// to the open chest, else the inventory.
pub open spec fn spec_spells(f: UIFlags, open: Option<u64>, m: MenuFocusState) -> (UIFlags, MenuFocusState) {
    let f1 = UIFlags { spell_menu_open: !f.spell_menu_open, ..f };
    if f1.spell_menu_open {
        (f1, requested(MenuFocusTarget::Spells))
    } else if open is Some {
        (f1, requested(MenuFocusTarget::Chest(open.unwrap())))
    } else if f1.inventory_open {
        (f1, requested(MenuFocusTarget::Inventory))
    } else {
        (f1, m)
    }
}

/// Escape: toggles the pause menu; opening it takes focus, closing it also
/// closes its settings and hands focus to the open chest, else the
/// inventory, else the spell menu.
pub open spec fn spec_pause(f: UIFlags, open: Option<u64>, m: MenuFocusState) -> (UIFlags, MenuFocusState) {
    if !f.pause_menu_open {
        (UIFlags { pause_menu_open: true, ..f }, requested(MenuFocusTarget::Pause))
    } else {
        let f1 = UIFlags { pause_menu_open: false, pause_settings_open: false, ..f };
        if open is Some {
            (f1, requested(MenuFocusTarget::Chest(open.unwrap())))
        } else if f1.inventory_open {
            (f1, requested(MenuFocusTarget::Inventory))
        } else if f1.spell_menu_open {
            (f1, requested(MenuFocusTarget::Spells))
        } else {
            (f1, m)
        }
    }
}

/// Window flags and focus after the hotkeys of one frame, taken in the order
/// Tab, E, Escape.
pub open spec fn spec_toggle(keys: UiKeys, f: UIFlags, open: Option<u64>, m: MenuFocusState) -> (UIFlags, MenuFocusState) {
    let (f1, m1) = if keys.tab {
        spec_tab(f, open, m)
    } else {
        (f, m)
    };
    let (f2, m2) = if keys.key_e {
        spec_spells(f1, open, m1)
    } else {
        (f1, m1)
    };
    if keys.escape {
        spec_pause(f2, open, m2)
    } else {
        (f2, m2)
    }
}

/// Applies the hotkeys of one frame to the windows, the focus, the camera
/// mode and the collision overlay.
pub fn ui_toggle_system(
    keys: &UiKeys,
    flags: &mut UIFlags,
    open_chest: &OpenChest,
    menu_focus: &mut MenuFocusState,
    third_person_enabled: &mut bool,
    collision_debug: &mut CollisionDebugSettings,
) -> (fx: ToggleEffects)
    ensures
        (*final(flags), *final(menu_focus)) == spec_toggle(*keys, *old(flags), open_chest.0, *old(menu_focus)),
        *final(third_person_enabled) == (*old(third_person_enabled) != keys.key_v),
        final(collision_debug).enabled == (old(collision_debug).enabled != keys.f3),
        fx.flip_shoulder == keys.key_c,
        fx.clear_snag_markers == keys.f4,
{
    if keys.tab {
        flags.inventory_open = !flags.inventory_open;
        if flags.inventory_open {
            menu_focus.request(MenuFocusTarget::Inventory);
        } else if let Some(chest) = open_chest.0 {
            menu_focus.request(MenuFocusTarget::Chest(chest));
        }
    }
    if keys.key_e {
        flags.spell_menu_open = !flags.spell_menu_open;
        if flags.spell_menu_open {
            menu_focus.request(MenuFocusTarget::Spells);
        } else if let Some(chest) = open_chest.0 {
            menu_focus.request(MenuFocusTarget::Chest(chest));
        } else if flags.inventory_open {
            menu_focus.request(MenuFocusTarget::Inventory);
        }
    }
    if keys.escape {
        flags.pause_menu_open = !flags.pause_menu_open;
        if flags.pause_menu_open {
            menu_focus.request(MenuFocusTarget::Pause);
        } else {
            flags.pause_settings_open = false;
            if let Some(chest) = open_chest.0 {
                menu_focus.request(MenuFocusTarget::Chest(chest));
            } else if flags.inventory_open {
                menu_focus.request(MenuFocusTarget::Inventory);
            } else if flags.spell_menu_open {
                menu_focus.request(MenuFocusTarget::Spells);
            }
        }
    }
    if keys.key_v {
        *third_person_enabled = !*third_person_enabled;
    }
    if keys.f3 {
        collision_debug.enabled = !collision_debug.enabled;
    }
    ToggleEffects { flip_shoulder: keys.key_c, clear_snag_markers: keys.f4 }
}

/// The pause settings panel is only ever open inside the pause menu.
pub open spec fn settings_inside_pause(f: UIFlags) -> bool {
    f.pause_settings_open ==> f.pause_menu_open
}

/// Law: whatever keys are pressed, the hotkeys never leave the settings
/// panel open outside the pause menu.
pub proof fn lemma_toggle_keeps_settings_inside_pause(keys: UiKeys, f: UIFlags, open: Option<u64>, m: MenuFocusState)
    requires
        settings_inside_pause(f),
    ensures
        settings_inside_pause(spec_toggle(keys, f, open, m).0),
{
}

/// Law: pressing the same window key twice, in two frames with no other key,
/// gives back the window flags of the start.
pub proof fn lemma_toggle_twice_restores_flags(keys: UiKeys, f: UIFlags, open: Option<u64>, m: MenuFocusState)
    requires
        !keys.escape || !f.pause_settings_open,
        (keys.tab as int) + (keys.key_e as int) + (keys.escape as int) == 1,
    ensures
        spec_toggle(keys, spec_toggle(keys, f, open, m).0, open, spec_toggle(keys, f, open, m).1).0 == f,
{
}

/// Whether a menu has the mouse: always on the start screen; in the maze,
/// while the inventory, spell menu, pause menu or a chest is open.
pub open spec fn spec_menu_active(state: AppState, f: UIFlags, open: Option<u64>) -> bool {
    match state {
        AppState::Menu => true,
        AppState::InGame => f.inventory_open || f.spell_menu_open || f.pause_menu_open || open is Some,
    }
}

/// Decides the cursor for this frame: returns whether it is free (shown, not
/// grabbed), and whether a pending focus request is to be served now, in
/// which case the request is cleared (the caller moves the cursor to the
/// focused window).
pub fn sync_window_cursor(state: AppState, flags: &UIFlags, open_chest: &OpenChest, menu_focus: &mut MenuFocusState) -> (r: (bool, bool))
    ensures
        r.0 == spec_menu_active(state, *flags, open_chest.0),
        r.1 == (r.0 && old(menu_focus).pending),
        final(menu_focus).target == old(menu_focus).target,
        final(menu_focus).pending == (old(menu_focus).pending && !r.1),
{
    let active = match state {
        AppState::Menu => true,
        AppState::InGame => flags.inventory_open || flags.spell_menu_open || flags.pause_menu_open || open_chest.0.is_some(),
    };
    if active && menu_focus.pending {
        menu_focus.pending = false;
        (active, true)
    } else {
        (active, false)
    }
}

/// "Return to Menu" in the pause menu (shown only while it is open):
/// closes the pause menu and its settings, and sends the game back to the
/// start screen.
pub fn pause_return_to_menu(flags: &mut UIFlags) -> (next: Option<AppState>)
    ensures
        old(flags).pause_menu_open ==> next == Some(AppState::Menu) && *final(flags) == (UIFlags {
            pause_menu_open: false,
            pause_settings_open: false,
            ..*old(flags)
        }),
        !old(flags).pause_menu_open ==> next is None && *final(flags) == *old(flags),
{
    if !flags.pause_menu_open {
        return None;
    }
    flags.pause_menu_open = false;
    flags.pause_settings_open = false;
    Some(AppState::Menu)
}

/// "Settings" in the pause menu (shown only while it is open): shows or
/// hides the settings panel.
pub fn pause_toggle_settings(flags: &mut UIFlags)
    ensures
        *final(flags) == if old(flags).pause_menu_open {
            UIFlags { pause_settings_open: !old(flags).pause_settings_open, ..*old(flags) }
        } else {
            *old(flags)
        },
        settings_inside_pause(*old(flags)) ==> settings_inside_pause(*final(flags)),
{
    if flags.pause_menu_open {
        flags.pause_settings_open = !flags.pause_settings_open;
    }
}

/// The chest whose window is open after F: none when no chest is in reach or
/// when the chest in reach is the one already open, otherwise the chest in
/// reach.
pub open spec fn spec_next_open(current: Option<u64>, nearest: Option<u64>) -> Option<u64> {
    match nearest {
        None => None,
        Some(hit) => if current == Some(hit) {
            None
        } else {
            Some(hit)
        },
    }
}

/// Whether F opens the chest in reach.
pub open spec fn opens_chest(current: Option<u64>, nearest: Option<u64>) -> bool {
    nearest is Some && current != nearest
}

/// F pressed near chests: `nearest` is the closest chest in reach (its
/// data is `chest`). Opens it, or closes the open one (see
/// `spec_next_open`). Opening a chest claims its gold into the wallet and
/// moves focus to it. Returns the gold gained.
pub fn interact_system(
    open: &mut OpenChest,
    menu_focus: &mut MenuFocusState,
    wallet: &mut PlayerWallet,
    nearest: Option<u64>,
    chest: &mut Chest,
) -> (gained: i32)
    requires
        opens_chest(old(open).0, nearest) && old(chest).gold > 0 ==> old(wallet).gold + old(chest).gold <= i32::MAX,
    ensures
        final(open).0 == spec_next_open(old(open).0, nearest),
        final(chest).items@ == old(chest).items@,
        final(chest).tier == old(chest).tier,
        opens_chest(old(open).0, nearest) ==> ({
            &&& *final(menu_focus) == requested(MenuFocusTarget::Chest(nearest.unwrap()))
            &&& gained == (if old(chest).gold > 0 {
                old(chest).gold
            } else {
                0
            })
            &&& final(chest).gold == (if old(chest).gold > 0 {
                0
            } else {
                old(chest).gold
            })
            &&& final(wallet).gold == old(wallet).gold + gained
        }),
        !opens_chest(old(open).0, nearest) ==> *final(menu_focus) == *old(menu_focus) && final(wallet).gold
            == old(wallet).gold && final(chest).gold == old(chest).gold && gained == 0,
{
    match nearest {
        None => {
            open.0 = None;
            0
        },
        Some(hit) => {
            let same = match open.0 {
                Some(current) => current == hit,
                None => false,
            };
            if same {
                open.0 = None;
                0
            } else {
                let mut gained: i32 = 0;
                if chest.gold > 0 {
                    wallet.gold = wallet.gold + chest.gold;
                    gained = chest.gold;
                    chest.gold = 0;
                }
                menu_focus.request(MenuFocusTarget::Chest(hit));
                open.0 = Some(hit);
                gained
            }
        },
    }
}

/// Law: pressing F twice at the same chest, when it is not already open,
/// opens it and then closes it; only the first press opens (and claims gold).
pub proof fn lemma_interact_twice_closes(current: Option<u64>, hit: u64)
    requires
        current != Some(hit),
    ensures
        spec_next_open(spec_next_open(current, Some(hit)), Some(hit)) is None,
        opens_chest(current, Some(hit)),
        !opens_chest(spec_next_open(current, Some(hit)), Some(hit)),
{
}

} // verus!
