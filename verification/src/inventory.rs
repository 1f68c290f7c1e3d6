//! The bag grid, chests, and the equipment worn by the player.

use crate::items::{BagSize, Item, EquipSlot, bag_size_for_rarity, spec_bag_size, mods_fit, spec_add_mods};
use crate::stats::Stats;
use vstd::prelude::*;

verus! {

/// Chest quality tiers.
#[derive(Clone, Copy, Debug, PartialEq, Eq, Structural)]
pub enum ChestTier {
    Common,
    Rare,
    Epic,
    Royal,
}

/// A chest in the maze: its loot and its gold.
#[derive(Clone, Debug)]
pub struct Chest {
    pub items: Vec<Item>,
    pub gold: i32,
    pub tier: ChestTier,
}

/// The player's bag: a `w` x `h` grid of cells stored row-major. An item of
/// size (`a`, `b`) takes the `a` x `b` cells whose top-left corner is the cell
/// that records it.
#[derive(Clone, Debug)]
pub struct BagGrid {
    pub w: u8,
    pub h: u8,
    pub cells: Vec<Option<Item>>,
}

/// Row-major position of cell (`x`, `y`) in a grid `w` cells wide.
pub open spec fn cell_at(w: int, x: int, y: int) -> int {
    y * w + x
}

/// Width and height of the area an item of size `a` x `b` takes, counted from
/// its top-left cell: its own area, or that one cell when a side is zero.
pub open spec fn footprint(a: int, b: int) -> (int, int) {
    if a >= 1 && b >= 1 {
        (a, b)
    } else {
        (1, 1)
    }
}

/// The `w1` x `h1` area at (`x1`, `y1`) and the `w2` x `h2` area at
/// (`x2`, `y2`) share a cell.
pub open spec fn overlaps(x1: int, y1: int, w1: int, h1: int, x2: int, y2: int, w2: int, h2: int) -> bool {
    &&& x1 < x2 + w2
    &&& x2 < x1 + w1
    &&& y1 < y2 + h2
    &&& y2 < y1 + h1
}

/// `it`, recorded at (`ix`, `iy`), takes a cell that an `sw` x `sh` item put
/// at (`x`, `y`) would take.
pub open spec fn clashes(ix: int, iy: int, it: Item, x: int, y: int, sw: int, sh: int) -> bool {
    let (a, b) = footprint(it.size.0 as int, it.size.1 as int);
    let (c, d) = footprint(sw, sh);
    overlaps(ix, iy, a, b, x, y, c, d)
}

/// An item of `sw` x `sh` cells fits with its top-left corner at (`x`, `y`):
/// it stays inside the grid and takes no cell that a stored item takes.
pub open spec fn fits(w: int, h: int, cells: Seq<Option<Item>>, x: int, y: int, sw: int, sh: int) -> bool {
    &&& 0 <= x
    &&& 0 <= y
    &&& x + sw <= w
    &&& y + sh <= h
    &&& forall|ix: int, iy: int|
        0 <= ix < w && 0 <= iy < h && (#[trigger] cells[cell_at(w, ix, iy)]) is Some ==> !clashes(
            ix,
            iy,
            cells[cell_at(w, ix, iy)]->0,
            x,
            y,
            sw,
            sh,
        )
}

/// (`x1`, `y1`) comes before (`x2`, `y2`) in row-major order.
pub open spec fn before(x1: int, y1: int, x2: int, y2: int) -> bool {
    y1 < y2 || (y1 == y2 && x1 < x2)
}

/// (`x`, `y`) is the first cell of the grid, in row-major order, where an
/// `sw` x `sh` item fits.
pub open spec fn first_fit(w: int, h: int, cells: Seq<Option<Item>>, sw: int, sh: int, x: int, y: int) -> bool {
    &&& 0 <= x < w
    &&& 0 <= y < h
    &&& fits(w, h, cells, x, y, sw, sh)
    &&& forall|x2: int, y2: int|
        0 <= x2 < w && 0 <= y2 < h && before(x2, y2, x, y) ==> !#[trigger] fits(w, h, cells, x2, y2, sw, sh)
}

/// Some cell of the grid can take an `sw` x `sh` item.
pub open spec fn has_fit(w: int, h: int, cells: Seq<Option<Item>>, sw: int, sh: int) -> bool {
    exists|x: int, y: int| 0 <= x < w && 0 <= y < h && #[trigger] fits(w, h, cells, x, y, sw, sh)
}

/// The cells after adding `item`: placed at its first fit, or unchanged when
/// it fits nowhere.
pub open spec fn spec_add(w: int, h: int, cells: Seq<Option<Item>>, item: Item) -> Seq<Option<Item>> {
    if has_fit(w, h, cells, item.size.0 as int, item.size.1 as int) {
        let (x, y) = choose|x: int, y: int| first_fit(w, h, cells, item.size.0 as int, item.size.1 as int, x, y);
        cells.update(cell_at(w, x, y), Some(item))
    } else {
        cells
    }
}

/// The cells after adding each of `items` in order.
pub open spec fn spec_add_all(w: int, h: int, cells: Seq<Option<Item>>, items: Seq<Item>) -> Seq<Option<Item>>
    decreases items.len(),
{
    if items.len() == 0 {
        cells
    } else {
        spec_add(w, h, spec_add_all(w, h, cells, items.drop_last()), items.last())
    }
}

/// The items stored in `cells`, in row-major order.
pub open spec fn stored_items(cells: Seq<Option<Item>>) -> Seq<Item>
    decreases cells.len(),
{
    if cells.len() == 0 {
        Seq::empty()
    } else {
        let rest = stored_items(cells.drop_last());
        match cells.last() {
            Some(it) => rest.push(it),
            None => rest,
        }
    }
}

/// `n` empty cells.
pub open spec fn empty_cells(n: nat) -> Seq<Option<Item>> {
    Seq::new(n, |i: int| None)
}

/// Cell positions are distinct and inside a `w` x `h` grid.
pub proof fn lemma_cell_at_bounds(w: int, h: int, x: int, y: int)
    requires
        0 <= x < w,
        0 <= y < h,
    ensures
        0 <= cell_at(w, x, y) < w * h,
        cell_at(w, x, y) + 1 <= w * h,
{
    assert(0 <= y * w) by (nonlinear_arith)
        requires
            0 <= y,
            0 <= w,
    ;
    assert(y * w + x < w * h) by (nonlinear_arith)
        requires
            0 <= x < w,
            0 <= y < h,
    ;
}

/// Distinct cells of a grid have distinct positions, ordered as the cells are.
pub proof fn lemma_cell_at_order(w: int, x1: int, y1: int, x2: int, y2: int)
    requires
        0 <= x1 < w,
        0 <= x2 < w,
        0 <= y1,
        0 <= y2,
    ensures
        before(x1, y1, x2, y2) <==> cell_at(w, x1, y1) < cell_at(w, x2, y2),
        (x1 == x2 && y1 == y2) <==> cell_at(w, x1, y1) == cell_at(w, x2, y2),
{
    if y1 < y2 {
        assert(y1 * w + w <= y2 * w) by (nonlinear_arith)
            requires
                y1 < y2,
                0 <= w,
        ;
    } else if y2 < y1 {
        assert(y2 * w + w <= y1 * w) by (nonlinear_arith)
            requires
                y2 < y1,
                0 <= w,
        ;
    }
}

/// The first fit is unique.
pub proof fn lemma_first_fit_unique(
    w: int,
    h: int,
    cells: Seq<Option<Item>>,
    sw: int,
    sh: int,
    x1: int,
    y1: int,
    x2: int,
    y2: int,
)
    requires
        first_fit(w, h, cells, sw, sh, x1, y1),
        first_fit(w, h, cells, sw, sh, x2, y2),
    ensures
        x1 == x2 && y1 == y2,
{
    if before(x1, y1, x2, y2) {
        assert(!fits(w, h, cells, x1, y1, sw, sh));
    } else if before(x2, y2, x1, y1) {
        assert(!fits(w, h, cells, x2, y2, sw, sh));
    }
}

impl BagGrid {
    /// The grid holds at least `w * h` cells; cells past the first `w * h`
    /// are not part of the grid.
    pub open spec fn wf(&self) -> bool {
        self.cells@.len() >= self.w as int * self.h as int
    }

    /// Whether the grid holds at least `w * h` cells (a grid read back from a
    /// save file may not).
    pub fn is_consistent(&self) -> (b: bool)
        ensures
            b == self.wf(),
    {
        proof {
            assert(0 <= self.w as int * self.h as int <= 255 * 255) by (nonlinear_arith)
                requires
                    0 <= self.w <= 255,
                    0 <= self.h <= 255,
            ;
        }
        self.cells.len() >= self.w as usize * self.h as usize
    }

    /// An empty `w` x `h` grid.
    pub fn new(w: u8, h: u8) -> (g: Self)
        ensures
            g.wf(),
            g.w == w,
            g.h == h,
            g.cells@ == empty_cells((w as int * h as int) as nat),
            areas_disjoint(w as int, h as int, g.cells@),
    {
        proof {
            lemma_empty_areas_disjoint(w as int, h as int);
        }
        proof {
            assert(0 <= w as int * h as int <= 255 * 255) by (nonlinear_arith)
                requires
                    0 <= w <= 255,
                    0 <= h <= 255,
            ;
        }
        let n: usize = w as usize * h as usize;
        let mut cells: Vec<Option<Item>> = Vec::new();
        let mut i: usize = 0;
        while i < n
            invariant
                0 <= i <= n,
                n == w as int * h as int,
                cells@ == empty_cells(i as nat),
            decreases n - i,
        {
            cells.push(None);
            i = i + 1;
            assert(cells@ =~= empty_cells(i as nat));
        }
        BagGrid { w, h, cells }
    }

    fn idx(&self, x: u8, y: u8) -> (i: usize)
        ensures
            i == cell_at(self.w as int, x as int, y as int),
    {
        proof {
            assert(0 <= y as int * self.w as int <= 255 * 255) by (nonlinear_arith)
                requires
                    0 <= y <= 255,
                    0 <= self.w <= 255,
            ;
        }
        y as usize * self.w as usize + x as usize
    }

    /// Whether an item of `size` fits with its top-left corner at (`x`, `y`).
    fn fits_at(&self, x: u8, y: u8, size: (u8, u8)) -> (b: bool)
        requires
            self.wf(),
        ensures
            b == fits(self.w as int, self.h as int, self.cells@, x as int, y as int, size.0 as int, size.1 as int),
    {
        let (w, h) = size;
        if x as u16 + w as u16 > self.w as u16 || y as u16 + h as u16 > self.h as u16 {
            return false;
        }
        let (c, d) = footprint_of(w, h);
        let ghost gw = self.w as int;
        let ghost gh = self.h as int;
        let mut iy: u8 = 0;
        while iy < self.h
            invariant
                self.wf(),
                gw == self.w as int,
                gh == self.h as int,
                (w, h) == size,
                (c as int, d as int) == footprint(w as int, h as int),
                x + w <= gw,
                y + h <= gh,
                0 <= iy <= gh,
                forall|ix2: int, iy2: int|
                    0 <= ix2 < gw && 0 <= iy2 < iy && (#[trigger] self.cells@[cell_at(gw, ix2, iy2)]) is Some
                        ==> !clashes(ix2, iy2, self.cells@[cell_at(gw, ix2, iy2)]->0, x as int, y as int, w as int, h as int),
            decreases gh - iy,
        {
            let mut ix: u8 = 0;
            while ix < self.w
                invariant
                    self.wf(),
                    gw == self.w as int,
                    gh == self.h as int,
                    (w, h) == size,
                    (c as int, d as int) == footprint(w as int, h as int),
                    x + w <= gw,
                    y + h <= gh,
                    0 <= iy < gh,
                    0 <= ix <= gw,
                    forall|ix2: int, iy2: int|
                        0 <= ix2 < gw && 0 <= iy2 < iy && (#[trigger] self.cells@[cell_at(gw, ix2, iy2)]) is Some
                            ==> !clashes(ix2, iy2, self.cells@[cell_at(gw, ix2, iy2)]->0, x as int, y as int, w as int, h as int),
                    forall|ix2: int|
                        0 <= ix2 < ix && (#[trigger] self.cells@[cell_at(gw, ix2, iy as int)]) is Some
                            ==> !clashes(ix2, iy as int, self.cells@[cell_at(gw, ix2, iy as int)]->0, x as int, y as int, w as int, h as int),
                decreases gw - ix,
            {
                proof {
                    lemma_cell_at_bounds(gw, gh, ix as int, iy as int);
                }
                let i = self.idx(ix, iy);
                match &self.cells[i] {
                    Some(it) => {
                        let (a, b) = footprint_of(it.size.0, it.size.1);
                        if (ix as u32) < x as u32 + c && (x as u32) < ix as u32 + a && (iy as u32) < y as u32 + d
                            && (y as u32) < iy as u32 + b {
                            assert(self.cells@[cell_at(gw, ix as int, iy as int)] is Some);
                            return false;
                        }
                    },
                    None => {},
                }
                ix = ix + 1;
            }
            iy = iy + 1;
        }
        true
    }

    /// Puts `item` at the first cell, in row-major order, where it fits;
    /// returns whether there was one (otherwise the bag is unchanged and the
    /// item is dropped).
    pub fn try_add(&mut self, item: Item) -> (added: bool)
        requires
            old(self).wf(),
        ensures
            final(self).wf(),
            final(self).w == old(self).w,
            final(self).h == old(self).h,
            added == has_fit(old(self).w as int, old(self).h as int, old(self).cells@, item.size.0 as int, item.size.1 as int),
            final(self).cells@ == spec_add(old(self).w as int, old(self).h as int, old(self).cells@, item),
            areas_disjoint(old(self).w as int, old(self).h as int, old(self).cells@) ==> areas_disjoint(
                final(self).w as int,
                final(self).h as int,
                final(self).cells@,
            ),
    {
        proof {
            if areas_disjoint(self.w as int, self.h as int, self.cells@) {
                lemma_add_keeps_areas_disjoint(self.w as int, self.h as int, self.cells@, item);
            }
        }
        match self.try_add_or_return(item) {
            Ok(()) => true,
            Err(_) => false,
        }
    }

    /// `try_add` that hands the item back when it fits nowhere.
    pub fn try_add_or_return(&mut self, item: Item) -> (r: Result<(), Item>)
        requires
            old(self).wf(),
        ensures
            final(self).wf(),
            final(self).w == old(self).w,
            final(self).h == old(self).h,
            r is Ok == has_fit(old(self).w as int, old(self).h as int, old(self).cells@, item.size.0 as int, item.size.1 as int),
            r matches Err(it) ==> it == item,
            final(self).cells@ == spec_add(old(self).w as int, old(self).h as int, old(self).cells@, item),
    {
        let ghost gw = self.w as int;
        let ghost gh = self.h as int;
        let ghost cells0 = self.cells@;
        let ghost sw = item.size.0 as int;
        let ghost sh = item.size.1 as int;
        let mut y: u8 = 0;
        while y < self.h
            invariant
                self.wf(),
                gw == self.w as int,
                gh == self.h as int,
                cells0 == self.cells@,
                cells0 == old(self).cells@,
                self.w == old(self).w,
                self.h == old(self).h,
                sw == item.size.0 as int,
                sh == item.size.1 as int,
                0 <= y <= gh,
                forall|x2: int, y2: int|
                    0 <= x2 < gw && 0 <= y2 < y ==> !#[trigger] fits(gw, gh, cells0, x2, y2, sw, sh),
            decreases gh - y,
        {
            let mut x: u8 = 0;
            while x < self.w
                invariant
                    self.wf(),
                    gw == self.w as int,
                    gh == self.h as int,
                    cells0 == self.cells@,
                    cells0 == old(self).cells@,
                    self.w == old(self).w,
                    self.h == old(self).h,
                    sw == item.size.0 as int,
                    sh == item.size.1 as int,
                    0 <= y < gh,
                    0 <= x <= gw,
                    forall|x2: int, y2: int|
                        0 <= x2 < gw && 0 <= y2 < y ==> !#[trigger] fits(gw, gh, cells0, x2, y2, sw, sh),
                    forall|x2: int| 0 <= x2 < x ==> !#[trigger] fits(gw, gh, cells0, x2, y as int, sw, sh),
                decreases gw - x,
            {
                if self.fits_at(x, y, item.size) {
                    proof {
                        assert(first_fit(gw, gh, cells0, sw, sh, x as int, y as int));
                        let (cx, cy) = choose|cx: int, cy: int| first_fit(gw, gh, cells0, sw, sh, cx, cy);
                        lemma_first_fit_unique(gw, gh, cells0, sw, sh, x as int, y as int, cx, cy);
                        lemma_cell_at_bounds(gw, gh, x as int, y as int);
                    }
                    self.place(x, y, item);
                    return Ok(());
                }
                x = x + 1;
            }
            y = y + 1;
        }
        Err(item)
    }

    /// Rebuilds the bag at the new size, re-adding the stored items in
    /// row-major order; items that no longer fit are dropped.
    pub fn resize_to(&mut self, new: BagSize)
        requires
            old(self).wf(),
        ensures
            final(self).wf(),
            final(self).w == new.w,
            final(self).h == new.h,
            final(self).cells@ == spec_add_all(
                new.w as int,
                new.h as int,
                empty_cells((new.w as int * new.h as int) as nat),
                stored_items(old(self).cells@.take(old(self).w as int * old(self).h as int)),
            ),
            areas_disjoint(final(self).w as int, final(self).h as int, final(self).cells@),
    {
        proof {
            lemma_empty_areas_disjoint(new.w as int, new.h as int);
            lemma_add_all_keeps_areas_disjoint(
                new.w as int,
                new.h as int,
                empty_cells((new.w as int * new.h as int) as nat),
                stored_items(self.cells@.take(self.w as int * self.h as int)),
            );
            assert(0 <= self.w as int * self.h as int <= 255 * 255) by (nonlinear_arith)
                requires
                    0 <= self.w <= 255,
                    0 <= self.h <= 255,
            ;
        }
        let total: usize = self.w as usize * self.h as usize;
        let mut n = BagGrid::new(new.w, new.h);
        let mut cells: Vec<Option<Item>> = Vec::new();
        std::mem::swap(&mut cells, &mut self.cells);
        let ghost orig = cells@;
        let ghost start = n.cells@;
        let mut i: usize = 0;
        while i < total
            invariant
                n.wf(),
                n.w == new.w,
                n.h == new.h,
                cells@.len() == orig.len(),
                total <= orig.len(),
                0 <= i <= total,
                forall|j: int| i <= j < orig.len() ==> #[trigger] cells@[j] == orig[j],
                n.cells@ == spec_add_all(new.w as int, new.h as int, start, stored_items(orig.subrange(0, i as int))),
            decreases total - i,
        {
            assert(orig.subrange(0, i as int + 1).drop_last() =~= orig.subrange(0, i as int));
            let c = take_cell(&mut cells, i);
            match c {
                Some(it) => {
                    let ghost before_items = stored_items(orig.subrange(0, i as int));
                    assert(stored_items(orig.subrange(0, i as int + 1)) == before_items.push(it));
                    assert(before_items.push(it).drop_last() =~= before_items);
                    n.try_add(it);
                },
                None => {},
            }
            i = i + 1;
        }
        assert(orig.subrange(0, total as int) =~= orig.take(total as int));
        *self = n;
    }

    /// Stores `item` in cell (`x`, `y`), replacing what was there.
    pub fn place(&mut self, x: u8, y: u8, item: Item)
        requires
            cell_at(old(self).w as int, x as int, y as int) < old(self).cells@.len(),
        ensures
            final(self).w == old(self).w,
            final(self).h == old(self).h,
            final(self).cells@ == old(self).cells@.update(cell_at(old(self).w as int, x as int, y as int), Some(item)),
    {
        let i = self.idx(x, y);
        self.cells.set(i, Some(item));
    }

    /// Takes the item out of cell (`x`, `y`), leaving it empty.
    pub fn remove_at(&mut self, x: u8, y: u8) -> (r: Option<Item>)
        requires
            cell_at(old(self).w as int, x as int, y as int) < old(self).cells@.len(),
        ensures
            final(self).w == old(self).w,
            final(self).h == old(self).h,
            r == old(self).cells@[cell_at(old(self).w as int, x as int, y as int)],
            final(self).cells@ == old(self).cells@.update(cell_at(old(self).w as int, x as int, y as int), None),
    {
        let i = self.idx(x, y);
        take_cell(&mut self.cells, i)
    }
}

/// The footprint of an item of size `a` x `b`.
fn footprint_of(a: u8, b: u8) -> (r: (u32, u32))
    ensures
        (r.0 as int, r.1 as int) == footprint(a as int, b as int),
{
    if a >= 1 && b >= 1 {
        (a as u32, b as u32)
    } else {
        (1, 1)
    }
}

/// Takes the value out of `v[i]`, leaving `None` there.
pub fn take_cell(v: &mut Vec<Option<Item>>, i: usize) -> (r: Option<Item>)
    requires
        i < old(v)@.len(),
    ensures
        r == old(v)@[i as int],
        final(v)@ == old(v)@.update(i as int, None),
{
    v.push(None);
    let r = v.swap_remove(i);
    assert(v@ =~= old(v)@.update(i as int, None));
    r
}

} // verus!

verus! {

/// What the player is wearing, one optional item per slot.
#[derive(Clone, Debug)]
pub struct Equipment {
    pub watch: Option<Item>,
    pub necklace: Option<Item>,
    pub gloves: Option<Item>,
    pub shirt: Option<Item>,
    pub pants: Option<Item>,
    pub shoes: Option<Item>,
    pub hat: Option<Item>,
    pub cape: Option<Item>,
    pub mainhand: Option<Item>,
    pub offhand: Option<Item>,
    pub twohand: Option<Item>,
    /// Governs the size of the bag grid.
    pub bag: Option<Item>,
}

/// Nothing worn.
pub open spec fn no_equipment() -> Equipment {
    Equipment {
        watch: None,
        necklace: None,
        gloves: None,
        shirt: None,
        pants: None,
        shoes: None,
        hat: None,
        cape: None,
        mainhand: None,
        offhand: None,
        twohand: None,
        bag: None,
    }
}

impl Default for Equipment {
    fn default() -> (e: Self)
        ensures
            e == no_equipment(),
    {
        Equipment {
            watch: None,
            necklace: None,
            gloves: None,
            shirt: None,
            pants: None,
            shoes: None,
            hat: None,
            cape: None,
            mainhand: None,
            offhand: None,
            twohand: None,
            bag: None,
        }
    }
}

/// `a` if it holds an item, otherwise `b`.
pub open spec fn or_else(a: Option<Item>, b: Option<Item>) -> Option<Item> {
    if a is Some {
        a
    } else {
        b
    }
}

/// The equipment after equipping `item`, and the item handed back.
/// - Ordinary slots swap: the previous occupant comes back.
/// - Main or off hand also frees the two-handed slot; what comes back is the
///   previous occupant of the hand, or else the two-handed item.
/// - Two-handed frees both hands; what comes back is the previous two-handed
///   item, or else the main-hand item, or else the off-hand item.
/// - An item without a slot comes straight back.
pub open spec fn spec_equip(e: Equipment, item: Item) -> (Equipment, Option<Item>) {
    match item.equip_slot {
        Some(EquipSlot::Watch) => (Equipment { watch: Some(item), ..e }, e.watch),
        Some(EquipSlot::Necklace) => (Equipment { necklace: Some(item), ..e }, e.necklace),
        Some(EquipSlot::Gloves) => (Equipment { gloves: Some(item), ..e }, e.gloves),
        Some(EquipSlot::Shirt) => (Equipment { shirt: Some(item), ..e }, e.shirt),
        Some(EquipSlot::Pants) => (Equipment { pants: Some(item), ..e }, e.pants),
        Some(EquipSlot::Shoes) => (Equipment { shoes: Some(item), ..e }, e.shoes),
        Some(EquipSlot::Hat) => (Equipment { hat: Some(item), ..e }, e.hat),
        Some(EquipSlot::Cape) => (Equipment { cape: Some(item), ..e }, e.cape),
        Some(EquipSlot::MainHand) => (
            Equipment { mainhand: Some(item), twohand: None, ..e },
            or_else(e.mainhand, e.twohand),
        ),
        Some(EquipSlot::OffHand) => (
            Equipment { offhand: Some(item), twohand: None, ..e },
            or_else(e.offhand, e.twohand),
        ),
        Some(EquipSlot::TwoHanded) => (
            Equipment { twohand: Some(item), mainhand: None, offhand: None, ..e },
            or_else(e.twohand, or_else(e.mainhand, e.offhand)),
        ),
        Some(EquipSlot::Bag) => (Equipment { bag: Some(item), ..e }, e.bag),
        None => (e, Some(item)),
    }
}

/// The bag after `item` is equipped: a bag upgrade rebuilds it at the size its
/// rarity grants; anything else leaves it alone.
pub open spec fn bag_after_equip(w: u8, h: u8, cells: Seq<Option<Item>>, item: Item) -> (u8, u8, Seq<Option<Item>>) {
    if item.equip_slot == Some(EquipSlot::Bag) {
        let (nw, nh) = spec_bag_size(item.rarity);
        (
            nw,
            nh,
            spec_add_all(
                nw as int,
                nh as int,
                empty_cells((nw as int * nh as int) as nat),
                stored_items(cells.take(w as int * h as int)),
            ),
        )
    } else {
        (w, h, cells)
    }
}

/// The worn items in slot order (watch, necklace, gloves, shirt, pants,
/// shoes, hat, cape, main hand, off hand, two-handed, bag).
pub open spec fn worn(e: Equipment) -> Seq<Option<Item>> {
    seq![
        e.watch, e.necklace, e.gloves, e.shirt, e.pants, e.shoes, e.hat, e.cape, e.mainhand, e.offhand,
        e.twohand, e.bag,
    ]
}

/// The item of `slot`.
pub open spec fn slot_item(e: Equipment, slot: EquipSlot) -> Option<Item> {
    match slot {
        EquipSlot::Watch => e.watch,
        EquipSlot::Necklace => e.necklace,
        EquipSlot::Gloves => e.gloves,
        EquipSlot::Shirt => e.shirt,
        EquipSlot::Pants => e.pants,
        EquipSlot::Shoes => e.shoes,
        EquipSlot::Hat => e.hat,
        EquipSlot::Cape => e.cape,
        EquipSlot::MainHand => e.mainhand,
        EquipSlot::OffHand => e.offhand,
        EquipSlot::TwoHanded => e.twohand,
        EquipSlot::Bag => e.bag,
    }
}

/// `s` plus the modifiers of every present item of `items`, in order.
pub open spec fn add_worn_mods(s: Stats, items: Seq<Option<Item>>) -> Stats
    decreases items.len(),
{
    if items.len() == 0 {
        s
    } else {
        let before = add_worn_mods(s, items.drop_last());
        match items.last() {
            Some(it) => spec_add_mods(before, it.mods),
            None => before,
        }
    }
}

/// Adding the modifiers of `items` one by one never leaves `i32`.
pub open spec fn worn_mods_fit(s: Stats, items: Seq<Option<Item>>) -> bool
    decreases items.len(),
{
    if items.len() == 0 {
        true
    } else {
        &&& worn_mods_fit(s, items.drop_last())
        &&& match items.last() {
            Some(it) => mods_fit(add_worn_mods(s, items.drop_last()), it.mods),
            None => true,
        }
    }
}

impl Equipment {
    /// Equips `item` in its slot (see `spec_equip`) and returns what it
    /// displaced. A bag upgrade first rebuilds `bag` at its new size.
    pub fn equip(&mut self, item: Item, bag: &mut BagGrid) -> (r: Option<Item>)
        requires
            item.equip_slot == Some(EquipSlot::Bag) ==> old(bag).wf(),
        ensures
            (*final(self), r) == spec_equip(*old(self), item),
            (final(bag).w, final(bag).h, final(bag).cells@) == bag_after_equip(old(bag).w, old(bag).h, old(bag).cells@, item),
            old(bag).wf() ==> final(bag).wf(),
            item.equip_slot == Some(EquipSlot::Bag) ==> final(bag).wf(),
    {
        match item.equip_slot {
            Some(EquipSlot::Watch) => {
                let mut new = Some(item);
                std::mem::swap(&mut self.watch, &mut new);
                new
            },
            Some(EquipSlot::Necklace) => {
                let mut new = Some(item);
                std::mem::swap(&mut self.necklace, &mut new);
                new
            },
            Some(EquipSlot::Gloves) => {
                let mut new = Some(item);
                std::mem::swap(&mut self.gloves, &mut new);
                new
            },
            Some(EquipSlot::Shirt) => {
                let mut new = Some(item);
                std::mem::swap(&mut self.shirt, &mut new);
                new
            },
            Some(EquipSlot::Pants) => {
                let mut new = Some(item);
                std::mem::swap(&mut self.pants, &mut new);
                new
            },
            Some(EquipSlot::Shoes) => {
                let mut new = Some(item);
                std::mem::swap(&mut self.shoes, &mut new);
                new
            },
            Some(EquipSlot::Hat) => {
                let mut new = Some(item);
                std::mem::swap(&mut self.hat, &mut new);
                new
            },
            Some(EquipSlot::Cape) => {
                let mut new = Some(item);
                std::mem::swap(&mut self.cape, &mut new);
                new
            },
            Some(EquipSlot::MainHand) => {
                // Moving to the main hand frees a two-handed weapon.
                let old_two = self.twohand.take();
                let mut new = Some(item);
                std::mem::swap(&mut self.mainhand, &mut new);
                if new.is_none() {
                    new = old_two;
                }
                new
            },
            Some(EquipSlot::OffHand) => {
                let old_two = self.twohand.take();
                let mut new = Some(item);
                std::mem::swap(&mut self.offhand, &mut new);
                if new.is_none() {
                    new = old_two;
                }
                new
            },
            Some(EquipSlot::TwoHanded) => {
                // A two-handed weapon displaces both hands.
                let mut new = Some(item);
                let displaced_main = self.mainhand.take();
                let displaced_off = self.offhand.take();
                std::mem::swap(&mut self.twohand, &mut new);
                if new.is_none() {
                    new = match displaced_main {
                        Some(m) => Some(m),
                        None => displaced_off,
                    };
                }
                new
            },
            Some(EquipSlot::Bag) => {
                // A bag upgrade resizes the grid before the swap.
                let sz = bag_size_for_rarity(item.rarity);
                bag.resize_to(sz);
                let mut new = Some(item);
                std::mem::swap(&mut self.bag, &mut new);
                new
            },
            None => Some(item),
        }
    }

    /// The item worn at position `k` of `worn`.
    fn worn_at(&self, k: usize) -> (r: &Option<Item>)
        requires
            k < 12,
        ensures
            *r == worn(*self)[k as int],
    {
        match k {
            0 => &self.watch,
            1 => &self.necklace,
            2 => &self.gloves,
            3 => &self.shirt,
            4 => &self.pants,
            5 => &self.shoes,
            6 => &self.hat,
            7 => &self.cape,
            8 => &self.mainhand,
            9 => &self.offhand,
            10 => &self.twohand,
            _ => &self.bag,
        }
    }

    /// Adds the modifiers of every worn item to `base`.
    pub fn sum_mods_into(&self, base: &mut Stats)
        requires
            worn_mods_fit(*old(base), worn(*self)),
        ensures
            *final(base) == add_worn_mods(*old(base), worn(*self)),
    {
        let ghost items = worn(*self);
        let ghost s0 = *base;
        let mut k: usize = 0;
        while k < 12
            invariant
                0 <= k <= 12,
                items == worn(*self),
                items.len() == 12,
                worn_mods_fit(s0, items),
                *base == add_worn_mods(s0, items.subrange(0, k as int)),
            decreases 12 - k,
        {
            proof {
                lemma_worn_mods_fit_prefix(s0, items, k as int + 1);
                assert(items.subrange(0, k as int + 1).drop_last() =~= items.subrange(0, k as int));
            }
            match self.worn_at(k) {
                Some(it) => it.mods.add_to(base),
                None => {},
            }
            k = k + 1;
        }
        assert(items.subrange(0, 12) =~= items);
    }
}

/// Fitting holds of every prefix.
pub proof fn lemma_worn_mods_fit_prefix(s: Stats, items: Seq<Option<Item>>, n: int)
    requires
        worn_mods_fit(s, items),
        0 <= n <= items.len(),
    ensures
        worn_mods_fit(s, items.subrange(0, n)),
    decreases items.len() - n,
{
    if n == items.len() {
        assert(items.subrange(0, n) =~= items);
    } else {
        lemma_worn_mods_fit_prefix(s, items.drop_last(), n);
        assert(items.drop_last().subrange(0, n) =~= items.subrange(0, n));
    }
}

} // verus!

verus! {

/// A two-handed weapon is never worn together with a main-hand or off-hand item.
pub open spec fn hands_exclusive(e: Equipment) -> bool {
    e.twohand is Some ==> e.mainhand is None && e.offhand is None
}

/// 1 when `o` holds `v`, else 0.
pub open spec fn opt_count(o: Option<Item>, v: Item) -> int {
    if o == Some(v) {
        1
    } else {
        0
    }
}

/// How many worn slots hold `v`.
pub open spec fn worn_count(e: Equipment, v: Item) -> int {
    opt_count(e.watch, v) + opt_count(e.necklace, v) + opt_count(e.gloves, v) + opt_count(e.shirt, v)
        + opt_count(e.pants, v) + opt_count(e.shoes, v) + opt_count(e.hat, v) + opt_count(e.cape, v)
        + opt_count(e.mainhand, v) + opt_count(e.offhand, v) + opt_count(e.twohand, v) + opt_count(e.bag, v)
}

/// Equipping keeps a two-handed weapon apart from the one-handed slots.
pub proof fn lemma_equip_keeps_hands_exclusive(e: Equipment, item: Item)
    requires
        hands_exclusive(e),
    ensures
        hands_exclusive(spec_equip(e, item).0),
{
}

/// Equipping loses no item: what is worn afterwards plus what is handed back
/// is what was worn plus the new item. This fails in one case, which is left
/// out: a two-handed weapon equipped while both hands are full (and no
/// two-handed weapon is worn) displaces both hand items but hands back only
/// the main-hand one.
#[verifier::spinoff_prover]
#[verifier::rlimit(40)]
pub proof fn lemma_equip_conserves_items(e: Equipment, item: Item)
    requires
        hands_exclusive(e),
        !(item.equip_slot == Some(EquipSlot::TwoHanded) && e.twohand is None && e.mainhand is Some
            && e.offhand is Some),
    ensures
        forall|v: Item|
            #![trigger worn_count(e, v)]
            worn_count(spec_equip(e, item).0, v) + opt_count(spec_equip(e, item).1, v) == worn_count(e, v) + (if v
                == item {
                1int
            } else {
                0int
            }),
{
    let (e2, r) = spec_equip(e, item);
    assert forall|v: Item| #![trigger worn_count(e, v)]
        worn_count(e2, v) + opt_count(r, v) == worn_count(e, v) + (if v == item {
            1int
        } else {
            0int
        }) by {
        match item.equip_slot {
            Some(EquipSlot::MainHand) => {
                assert(e.twohand is Some ==> e.mainhand is None);
            },
            Some(EquipSlot::OffHand) => {
                assert(e.twohand is Some ==> e.offhand is None);
            },
            Some(EquipSlot::TwoHanded) => {
                assert(e.twohand is Some ==> e.mainhand is None && e.offhand is None);
            },
            _ => {},
        }
    }
}

/// Removing what was just placed in an empty cell restores the bag.
pub proof fn lemma_place_then_remove(cells: Seq<Option<Item>>, p: int, item: Item)
    requires
        0 <= p < cells.len(),
        cells[p] is None,
    ensures
        cells.update(p, Some(item))[p] == Some(item),
        cells.update(p, Some(item)).update(p, None) =~= cells,
{
}

/// Filling an empty cell adds exactly that item to the stored items.
pub proof fn lemma_stored_items_fill(cells: Seq<Option<Item>>, p: int, item: Item)
    requires
        0 <= p < cells.len(),
        cells[p] is None,
    ensures
        stored_items(cells.update(p, Some(item))).to_multiset() =~= stored_items(cells).to_multiset().insert(item),
    decreases cells.len(),
{
    broadcast use vstd::seq_lib::group_to_multiset_ensures;
    let n = cells.len();
    if p == n - 1 {
        assert(cells.update(p, Some(item)).drop_last() =~= cells.drop_last());
    } else {
        lemma_stored_items_fill(cells.drop_last(), p, item);
        assert(cells.update(p, Some(item)).drop_last() =~= cells.drop_last().update(p, Some(item)));
    }
}

/// Adding an item, when it fits, stores it in an empty cell: the stored items
/// gain exactly that item.
pub proof fn lemma_add_stores_item(w: int, h: int, cells: Seq<Option<Item>>, item: Item)
    requires
        0 <= w,
        0 <= h,
        cells.len() == w * h,
        has_fit(w, h, cells, item.size.0 as int, item.size.1 as int),
    ensures
        stored_items(spec_add(w, h, cells, item)).to_multiset() =~= stored_items(cells).to_multiset().insert(item),
{
    let (fx, fy) = choose|fx: int, fy: int| 0 <= fx < w && 0 <= fy < h && #[trigger] fits(w, h, cells, fx, fy, item.size.0 as int, item.size.1 as int);
    lemma_first_fit_exists(w, h, cells, item.size.0 as int, item.size.1 as int, fx, fy);
    let (x, y) = choose|x: int, y: int| first_fit(w, h, cells, item.size.0 as int, item.size.1 as int, x, y);
    lemma_cell_at_bounds(w, h, x, y);
    assert(cells[cell_at(w, x, y)] is None);
    lemma_stored_items_fill(cells, cell_at(w, x, y), item);
}

/// No two items stored in a `w`-wide grid take a common cell.
pub open spec fn areas_disjoint(w: int, h: int, cells: Seq<Option<Item>>) -> bool {
    forall|x1: int, y1: int, x2: int, y2: int|
        0 <= x1 < w && 0 <= y1 < h && 0 <= x2 < w && 0 <= y2 < h && !(x1 == x2 && y1 == y2) && (#[trigger] cells[cell_at(
            w,
            x1,
            y1,
        )]) is Some && (#[trigger] cells[cell_at(w, x2, y2)]) is Some ==> !clashes(
            x1,
            y1,
            cells[cell_at(w, x1, y1)]->0,
            x2,
            y2,
            cells[cell_at(w, x2, y2)]->0.size.0 as int,
            cells[cell_at(w, x2, y2)]->0.size.1 as int,
        )
}

/// Law: adding an item to a bag whose items take no common cell keeps it so.
pub proof fn lemma_add_keeps_areas_disjoint(w: int, h: int, cells: Seq<Option<Item>>, item: Item)
    requires
        0 <= w,
        0 <= h,
        cells.len() >= w * h,
        areas_disjoint(w, h, cells),
    ensures
        areas_disjoint(w, h, spec_add(w, h, cells, item)),
        spec_add(w, h, cells, item).len() == cells.len(),
{
    let sw = item.size.0 as int;
    let sh = item.size.1 as int;
    if has_fit(w, h, cells, sw, sh) {
        let (fx, fy) = choose|fx: int, fy: int| 0 <= fx < w && 0 <= fy < h && #[trigger] fits(w, h, cells, fx, fy, sw, sh);
        lemma_first_fit_exists(w, h, cells, sw, sh, fx, fy);
        let (x, y) = choose|x: int, y: int| first_fit(w, h, cells, sw, sh, x, y);
        let p = cell_at(w, x, y);
        let nc = cells.update(p, Some(item));
        assert(spec_add(w, h, cells, item) == nc);
        lemma_cell_at_bounds(w, h, x, y);
        assert forall|x1: int, y1: int, x2: int, y2: int|
            0 <= x1 < w && 0 <= y1 < h && 0 <= x2 < w && 0 <= y2 < h && !(x1 == x2 && y1 == y2)
                && (#[trigger] nc[cell_at(w, x1, y1)]) is Some && (#[trigger] nc[cell_at(w, x2, y2)]) is Some implies !clashes(
            x1,
            y1,
            nc[cell_at(w, x1, y1)]->0,
            x2,
            y2,
            nc[cell_at(w, x2, y2)]->0.size.0 as int,
            nc[cell_at(w, x2, y2)]->0.size.1 as int,
        ) by {
            lemma_cell_at_order(w, x1, y1, x, y);
            lemma_cell_at_order(w, x2, y2, x, y);
            lemma_cell_at_order(w, x1, y1, x2, y2);
            lemma_cell_at_bounds(w, h, x1, y1);
            lemma_cell_at_bounds(w, h, x2, y2);
            if x1 == x && y1 == y {
                assert(cells[cell_at(w, x2, y2)] is Some);
            } else if x2 == x && y2 == y {
                assert(cells[cell_at(w, x1, y1)] is Some);
            } else {
                assert(cells[cell_at(w, x1, y1)] is Some);
                assert(cells[cell_at(w, x2, y2)] is Some);
            }
        }
    }
}

/// Law: a bag rebuilt by adding items one by one to an empty grid never
/// holds two items that take a common cell.
pub proof fn lemma_add_all_keeps_areas_disjoint(w: int, h: int, cells: Seq<Option<Item>>, items: Seq<Item>)
    requires
        0 <= w,
        0 <= h,
        cells.len() == w * h,
        areas_disjoint(w, h, cells),
    ensures
        areas_disjoint(w, h, spec_add_all(w, h, cells, items)),
        spec_add_all(w, h, cells, items).len() == w * h,
    decreases items.len(),
{
    if items.len() > 0 {
        let before = spec_add_all(w, h, cells, items.drop_last());
        lemma_add_all_keeps_areas_disjoint(w, h, cells, items.drop_last());
        lemma_add_keeps_areas_disjoint(w, h, before, items.last());
    }
}

/// An empty grid holds no two items that take a common cell.
pub proof fn lemma_empty_areas_disjoint(w: int, h: int)
    requires
        0 <= w,
        0 <= h,
    ensures
        areas_disjoint(w, h, empty_cells((w * h) as nat)),
{
    assert forall|x1: int, y1: int| 0 <= x1 < w && 0 <= y1 < h implies (#[trigger] empty_cells((w * h) as nat)[cell_at(
        w,
        x1,
        y1,
    )]) is None by {
        lemma_cell_at_bounds(w, h, x1, y1);
    }
}

/// Where an item fits somewhere, it has a first fit.
pub proof fn lemma_first_fit_exists(w: int, h: int, cells: Seq<Option<Item>>, sw: int, sh: int, fx: int, fy: int)
    requires
        0 <= fx < w,
        0 <= fy < h,
        fits(w, h, cells, fx, fy, sw, sh),
    ensures
        exists|x: int, y: int| first_fit(w, h, cells, sw, sh, x, y),
    decreases fy * w + fx,
{
    if !first_fit(w, h, cells, sw, sh, fx, fy) {
        let (x2, y2) = choose|x2: int, y2: int|
            0 <= x2 < w && 0 <= y2 < h && before(x2, y2, fx, fy) && #[trigger] fits(w, h, cells, x2, y2, sw, sh);
        lemma_cell_at_order(w, x2, y2, fx, fy);
        lemma_first_fit_exists(w, h, cells, sw, sh, x2, y2);
    }
}

} // verus!
