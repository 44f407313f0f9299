use vstd::prelude::*;
use vstd::multiset::Multiset;
use vstd::seq_lib::lemma_multiset_commutative;

use crate::cell::{CellPos, MAX_DEPTH};
use crate::registration::{deregistrations, ids_of, registrations, Deregister, Register, RegistrationLog};
use crate::seq_lemmas::{lemma_flatten_contains, lemma_prefix_contains, lemma_prefix_push, lemma_prefix_trans};
use crate::set_block::{
    children_handles, children_records, children_view, deregistered_ids, handles_accounted,
    lemma_accounted_trans, lemma_octants_records, lemma_octants_view, leaves_registered, recombined,
    registered_ids,
};
use crate::tree::{Tree, SVO};
use crate::voxel_data::VoxelData;

verus! {

broadcast use crate::registration::group_record;

/// The sum of `img[y * w + x]` over the columns `x0..xn` of row `y`.
pub open spec fn row_sum(img: Seq<u8>, w: int, y: int, x0: int, xn: int) -> int
    decreases xn - x0,
{
    if xn <= x0 {
        0
    } else {
        row_sum(img, w, y, x0, xn - 1) + img[y * w + xn - 1] as int
    }
}

/// The sum of the bytes in columns `x0..xn` of rows `y0..yn`.
pub open spec fn region_sum(img: Seq<u8>, w: int, x0: int, xn: int, y0: int, yn: int) -> int
    decreases yn - y0,
{
    if yn <= y0 {
        0
    } else {
        region_sum(img, w, x0, xn, y0, yn - 1) + row_sum(img, w, yn - 1, x0, xn)
    }
}

proof fn lemma_row_sum_bound(img: Seq<u8>, w: int, y: int, x0: int, xn: int)
    requires
        x0 <= xn,
    ensures
        0 <= row_sum(img, w, y, x0, xn) <= 255 * (xn - x0),
    decreases xn - x0,
{
    if xn > x0 {
        lemma_row_sum_bound(img, w, y, x0, xn - 1);
    }
}

proof fn lemma_region_sum_bound(img: Seq<u8>, w: int, x0: int, xn: int, y0: int, yn: int)
    requires
        x0 <= xn,
        y0 <= yn,
    ensures
        0 <= region_sum(img, w, x0, xn, y0, yn) <= 255 * ((xn - x0) * (yn - y0)),
    decreases yn - y0,
{
    if yn > y0 {
        lemma_region_sum_bound(img, w, x0, xn, y0, yn - 1);
        lemma_row_sum_bound(img, w, yn - 1, x0, xn);
        assert((xn - x0) * (yn - y0) == (xn - x0) * (yn - 1 - y0) + (xn - x0)) by (nonlinear_arith);
    }
}

/// A rectangle of a grey-scale image, `x0..xn` by `y0..yn`, together with
/// the band `b0..bn` of brightness that it stands for.
#[derive(Clone, Copy, Debug)]
pub struct SubImage<'a> {
    pub image: &'a [u8],
    pub image_width: u32,
    pub x_0: u32,
    pub x_n: u32,
    pub y_0: u32,
    pub y_n: u32,
    pub b_0: u8,
    pub b_n: u8,
}

impl<'a> SubImage<'a> {
    /// The rectangle lies inside the image and the band is not reversed.
    pub open spec fn wf(&self) -> bool {
        &&& self.image@.len() <= u32::MAX
        &&& self.x_0 <= self.x_n <= self.image_width
        &&& self.y_0 <= self.y_n
        &&& self.y_n * self.image_width <= self.image@.len()
        &&& self.b_0 <= self.b_n
    }

    pub open spec fn width_spec(&self) -> int {
        self.x_n - self.x_0
    }

    pub open spec fn height_spec(&self) -> int {
        self.y_n - self.y_0
    }

    pub open spec fn sum_spec(&self) -> int {
        region_sum(self.image@, self.image_width as int, self.x_0 as int, self.x_n as int, self.y_0 as int, self.y_n as int)
    }

    /// The same image and band over another rectangle.
    pub open spec fn rect_spec(&self, x_0: u32, x_n: u32, y_0: u32, y_n: u32) -> SubImage<'a> {
        SubImage { x_0, x_n, y_0, y_n, ..*self }
    }

    /// The four quadrants, or `None` when the rectangle is too thin to halve.
    pub open spec fn quads_spec(&self) -> Option<Seq<SubImage<'a>>> {
        let hw = (self.width_spec() / 2) as u32;
        let hh = (self.height_spec() / 2) as u32;
        if hw == 0 || hh == 0 {
            None
        } else {
            Some(
                seq![
                    self.rect_spec(self.x_0, (self.x_0 + hw) as u32, self.y_0, (self.y_0 + hh) as u32),
                    self.rect_spec(self.x_0, (self.x_0 + hw) as u32, (self.y_0 + hh) as u32, self.y_n),
                    self.rect_spec((self.x_0 + hw) as u32, self.x_n, self.y_0, (self.y_0 + hh) as u32),
                    self.rect_spec((self.x_0 + hw) as u32, self.x_n, (self.y_0 + hh) as u32, self.y_n),
                ],
            )
        }
    }

    /// The darker and the lighter half of the band, or `None` when the band
    /// is too narrow to halve.
    pub open spec fn split_spec(&self) -> Option<Seq<SubImage<'a>>> {
        let half = ((self.b_n - self.b_0) / 2) as u8;
        if half == 0 {
            None
        } else {
            Some(
                seq![
                    SubImage { b_0: self.b_0, b_n: (self.b_0 + half) as u8, ..*self },
                    SubImage { b_0: (self.b_0 + half) as u8, b_n: self.b_n, ..*self },
                ],
            )
        }
    }

    /// The eight octants: the darker band's lower quadrants, the lighter
    /// band's lower quadrants, then the same for the upper quadrants.
    pub open spec fn octs_spec(&self) -> Option<Seq<SubImage<'a>>> {
        match self.split_spec() {
            None => None,
            Some(layers) => match (layers[0].quads_spec(), layers[1].quads_spec()) {
                (Some(d), Some(l)) => Some(seq![d[0], d[1], l[0], l[1], d[2], d[3], l[2], l[3]]),
                _ => None,
            },
        }
    }

    /// The whole image with the full band of brightness.
    pub fn new(image: &'a [u8], width: u32, height: u32) -> (r: SubImage<'a>)
        requires
            image@.len() == width * height,
            width * height <= u32::MAX,
        ensures
            r.wf(),
            r == (SubImage { image, image_width: width, x_0: 0, x_n: width, y_0: 0, y_n: height, b_0: 0, b_n: 255 }),
    {
        proof {
            assert(height * width == width * height) by (nonlinear_arith);
        }
        SubImage { image, image_width: width, x_0: 0, x_n: width, y_0: 0, y_n: height, b_0: 0, b_n: 255 }
    }

    pub fn width(&self) -> (r: u32)
        requires
            self.wf(),
        ensures
            r == self.width_spec(),
    {
        self.x_n - self.x_0
    }

    pub fn height(&self) -> (r: u32)
        requires
            self.wf(),
        ensures
            r == self.height_spec(),
    {
        self.y_n - self.y_0
    }

    /// The sum of the bytes in the rectangle.
    pub fn byte_sum(&self) -> (r: u64)
        requires
            self.wf(),
        ensures
            r == self.sum_spec(),
    {
        let img = self.image;
        let w = self.image_width as usize;
        let mut total: u64 = 0;
        let mut y: u32 = self.y_0;
        proof {
            assert(self.image_width * (self.y_n - self.y_0) <= self.y_n * self.image_width) by (nonlinear_arith)
                requires self.y_0 <= self.y_n;
            lemma_region_sum_bound(img@, w as int, self.x_0 as int, self.x_n as int, self.y_0 as int, self.y_n as int);
            assert((self.x_n - self.x_0) * (self.y_n - self.y_0) <= self.image_width * (self.y_n - self.y_0)) by (nonlinear_arith)
                requires self.x_n - self.x_0 <= self.image_width, self.y_0 <= self.y_n;
        }
        while y < self.y_n
            invariant
                self.wf(),
                img == self.image,
                w == self.image_width,
                self.y_0 <= y <= self.y_n,
                total == region_sum(img@, w as int, self.x_0 as int, self.x_n as int, self.y_0 as int, y as int),
                total <= 255 * ((self.x_n - self.x_0) * (y - self.y_0)),
            decreases self.y_n - y,
        {
            let mut x: u32 = self.x_0;
            let mut row: u64 = 0;
            proof {
                assert((y + 1) * w <= self.y_n * w) by (nonlinear_arith)
                    requires y + 1 <= self.y_n;
            }
            while x < self.x_n
                invariant
                    self.wf(),
                    img == self.image,
                    w == self.image_width,
                    self.y_0 <= y < self.y_n,
                    (y + 1) * w <= img@.len(),
                    self.x_0 <= x <= self.x_n,
                    row == row_sum(img@, w as int, y as int, self.x_0 as int, x as int),
                    row <= 255 * (x - self.x_0),
                decreases self.x_n - x,
            {
                proof {
                    assert(y * w + x < (y + 1) * w) by (nonlinear_arith)
                        requires x < w;
                }
                let ix = (y as usize) * w + (x as usize);
                row = row + img[ix] as u64;
                x = x + 1;
            }
            proof {
                lemma_region_sum_bound(img@, w as int, self.x_0 as int, self.x_n as int, self.y_0 as int, (y + 1) as int);
                assert((self.x_n - self.x_0) * (y + 1 - self.y_0) <= (self.x_n - self.x_0) * (self.y_n - self.y_0)) by (nonlinear_arith)
                    requires y + 1 <= self.y_n, self.x_0 <= self.x_n;
                assert((self.x_n - self.x_0) * (self.y_n - self.y_0) <= self.image_width * (self.y_n - self.y_0)) by (nonlinear_arith)
                    requires self.x_n - self.x_0 <= self.image_width, self.y_0 <= self.y_n;
                assert(self.image_width * (self.y_n - self.y_0) <= self.y_n * self.image_width) by (nonlinear_arith)
                    requires self.y_0 <= self.y_n;
            }
            total = total + row;
            y = y + 1;
        }
        total
    }

    /// The same image and band over another rectangle.
    pub fn rect(&self, x_0: u32, x_n: u32, y_0: u32, y_n: u32) -> (r: SubImage<'a>)
        ensures
            r == self.rect_spec(x_0, x_n, y_0, y_n),
    {
        SubImage { x_0, x_n, y_0, y_n, ..*self }
    }

    pub fn quads(&self) -> (r: Option<[SubImage<'a>; 4]>)
        requires
            self.wf(),
        ensures
            self.quads_spec() is None <==> r is None,
            r matches Some(q) ==> q@ == self.quads_spec()->0,
    {
        let half_width = self.width() / 2;
        let half_height = self.height() / 2;
        if half_width == 0 || half_height == 0 {
            return None;
        }
        let ll = self.rect(self.x_0, self.x_0 + half_width, self.y_0, self.y_0 + half_height);
        let lr = self.rect(self.x_0, self.x_0 + half_width, self.y_0 + half_height, self.y_n);
        let rl = self.rect(self.x_0 + half_width, self.x_n, self.y_0, self.y_0 + half_height);
        let rr = self.rect(self.x_0 + half_width, self.x_n, self.y_0 + half_height, self.y_n);
        let r = [ll, lr, rl, rr];
        assert(r@ =~= self.quads_spec()->0);
        Some(r)
    }

    pub fn split_threshold(&self) -> (r: Option<[SubImage<'a>; 2]>)
        requires
            self.wf(),
        ensures
            self.split_spec() is None <==> r is None,
            r matches Some(q) ==> q@ == self.split_spec()->0,
    {
        let half_range = (self.b_n - self.b_0) / 2;
        if half_range == 0 {
            return None;
        }
        let darker = SubImage { b_0: self.b_0, b_n: self.b_0 + half_range, ..*self };
        let lighter = SubImage { b_0: self.b_0 + half_range, b_n: self.b_n, ..*self };
        let r = [darker, lighter];
        assert(r@ =~= self.split_spec()->0);
        Some(r)
    }

    /// The eight sub-images that the octants of a node stand for.
    pub fn octs(&self) -> (r: Option<[SubImage<'a>; 8]>)
        requires
            self.wf(),
        ensures
            self.octs_spec() is None <==> r is None,
            r matches Some(o) ==> o@ == self.octs_spec()->0,
    {
        let layers = match self.split_threshold() {
            Some(l) => l,
            None => {
                return None;
            },
        };
        proof {
            assert(layers[0] == self.split_spec()->0[0]);
            assert(layers[1] == self.split_spec()->0[1]);
        }
        let darker = match layers[0].quads() {
            Some(q) => q,
            None => {
                return None;
            },
        };
        let lighter = match layers[1].quads() {
            Some(q) => q,
            None => {
                return None;
            },
        };
        let r = [darker[0], darker[1], lighter[0], lighter[1], darker[2], darker[3], lighter[2], lighter[3]];
        assert(r@ =~= self.octs_spec()->0);
        Some(r)
    }

    /// The mean brightness of the rectangle, rounded down.
    pub fn byte_avg(&self) -> (r: u8)
        requires
            self.wf(),
            self.width_spec() * self.height_spec() > 0,
        ensures
            r == self.sum_spec() / (self.width_spec() * self.height_spec()),
    {
        let sum = self.byte_sum();
        proof {
            lemma_region_sum_bound(self.image@, self.image_width as int, self.x_0 as int, self.x_n as int, self.y_0 as int, self.y_n as int);
            assert((self.x_n - self.x_0) * (self.y_n - self.y_0) <= self.image_width * (self.y_n - self.y_0)) by (nonlinear_arith)
                requires self.x_n - self.x_0 <= self.image_width, self.y_0 <= self.y_n;
            assert(self.image_width * (self.y_n - self.y_0) <= self.y_n * self.image_width) by (nonlinear_arith)
                requires self.y_0 <= self.y_n;
        }
        let sub_len = (self.width() as u64) * (self.height() as u64);
        let avg = sum / sub_len;
        proof {
            let n = self.width_spec() * self.height_spec();
            let s = sum as int;
            assert(s / n <= 255) by (nonlinear_arith)
                requires s <= 255 * n, n > 0, s >= 0;
        }
        avg as u8
    }
}

/// The voxel type of a leaf made from a sub-image: solid (`1`) when its mean
/// brightness lies above the middle of its band, empty (`0`) otherwise.
pub open spec fn leaf_type(img: SubImage) -> i32 {
    if img.sum_spec() / (img.width_spec() * img.height_spec()) <= img.b_0 + (img.b_n - img.b_0) / 2 {
        0
    } else {
        1
    }
}

/// The tree that a height map builds below a sub-image: while depth remains
/// and the sub-image splits into octants, a node of the eight trees built
/// from them, recombined; otherwise one leaf of `leaf_type`.
pub open spec fn height_map_tree(depth: nat, img: SubImage) -> Tree
    decreases depth,
{
    if depth > 0 && img.octs_spec() is Some {
        let o = img.octs_spec()->0;
        let d = (depth - 1) as nat;
        recombined(
            Tree::Node {
                children: seq![
                    height_map_tree(d, o[0]),
                    height_map_tree(d, o[1]),
                    height_map_tree(d, o[2]),
                    height_map_tree(d, o[3]),
                    height_map_tree(d, o[4]),
                    height_map_tree(d, o[5]),
                    height_map_tree(d, o[6]),
                    height_map_tree(d, o[7]),
                ],
            },
        )
    } else {
        Tree::Leaf { data: VoxelData { voxel_type: leaf_type(img) } }
    }
}

proof fn lemma_octs_wf(img: SubImage)
    requires
        img.wf(),
        img.octs_spec() is Some,
    ensures
        img.octs_spec()->0.len() == 8,
        forall|i: int|
            0 <= i < 8 ==> (#[trigger] img.octs_spec()->0[i]).wf() && img.octs_spec()->0[i].width_spec()
                * img.octs_spec()->0[i].height_spec() > 0,
{
    let o = img.octs_spec()->0;
    let l = img.split_spec()->0;
    assert(l[0].wf() && l[1].wf());
    assert forall|i: int| 0 <= i < 8 implies (#[trigger] o[i]).wf() && o[i].width_spec() * o[i].height_spec() > 0 by {
        let w = o[i].width_spec();
        let h = o[i].height_spec();
        assert(w >= 1 && h >= 1);
        assert(w * h > 0) by (nonlinear_arith)
            requires w >= 1, h >= 1;
        assert(o[i].y_n <= img.y_n);
        assert(o[i].y_n * img.image_width <= img.y_n * img.image_width) by (nonlinear_arith)
            requires o[i].y_n <= img.y_n;
    }
}

impl SVO {
    /// Builds the tree of a sub-image whose cube is `cell`, registering each
    /// leaf that it makes.
    fn height_map_sub<'a, R: Register + Deregister>(
        depth: u32,
        image: SubImage<'a>,
        reg: &mut R,
        cell: CellPos,
    ) -> (r: SVO)
        requires
            old(reg).wf(),
            image.wf(),
            image.width_spec() * image.height_spec() > 0,
            cell.wf(),
            cell.depth + depth <= MAX_DEPTH,
        ensures
            final(reg).wf(),
            r@ == height_map_tree(depth as nat, image),
            r@.wf(),
            handles_accounted(
                Multiset::empty(),
                r.handles().to_multiset(),
                registered_ids(*old(reg)),
                registered_ids(*final(reg)),
                deregistered_ids(*old(reg)),
                deregistered_ids(*final(reg)),
            ),
            registrations(old(reg).events()).is_prefix_of(registrations(final(reg).events())),
            leaves_registered(r, cell, registrations(final(reg).events())),
            deregistrations(old(reg).events()).is_prefix_of(deregistrations(final(reg).events())),
        decreases depth,
    {
        let ghost log0 = registrations(reg.events());
        let ghost dlog0 = deregistrations(reg.events());
        proof {
            assert(log0 =~= log0.subrange(0, log0.len() as int));
            assert(dlog0 =~= dlog0.subrange(0, dlog0.len() as int));
        }
        if depth > 0 {
            if let Some(subs) = image.octs() {
                proof {
                    lemma_octs_wf(image);
                }
                let ghost o = image.octs_spec()->0;
                let ghost r0 = registered_ids(*reg);
                let ghost d0 = deregistered_ids(*reg);
                let mut v: Vec<SVO> = Vec::new();
                let mut i: u8 = 0;
                proof {
                    assert(children_handles(v@, 0) =~= Seq::<Seq<u32>>::empty());
                    Seq::<u32>::empty().to_multiset_ensures();
                    assert forall|x: u32| #[trigger] Seq::<u32>::empty().to_multiset().count(x) == 0 by {
                        assert(!Seq::<u32>::empty().contains(x));
                    }
                    assert(Seq::<u32>::empty().to_multiset() =~= Multiset::empty());
                    assert(children_handles(v@, 0).flatten() =~= Seq::<u32>::empty());
                    assert(Multiset::<u32>::empty().add(r0).add(d0) =~= Multiset::<u32>::empty().add(d0).add(r0));
                }
                while i < 8
                    invariant
                        reg.wf(),
                        0 < depth,
                        i <= 8,
                        v.len() == i,
                        subs@ == o,
                        o.len() == 8,
                        forall|j: int| 0 <= j < 8 ==> (#[trigger] o[j]).wf() && o[j].width_spec() * o[j].height_spec() > 0,
                        cell.wf(),
                        cell.depth + depth <= MAX_DEPTH,
                        forall|j: int| 0 <= j < i ==> (#[trigger] v@[j])@ == height_map_tree((depth - 1) as nat, o[j]),
                        forall|j: int| 0 <= j < i ==> (#[trigger] v@[j])@.wf(),
                        handles_accounted(
                            Multiset::empty(),
                            children_handles(v@, i as int).flatten().to_multiset(),
                            r0,
                            registered_ids(*reg),
                            d0,
                            deregistered_ids(*reg),
                        ),
                        log0.is_prefix_of(registrations(reg.events())),
                        dlog0.is_prefix_of(deregistrations(reg.events())),
                        forall|j: int|
                            0 <= j < i ==> leaves_registered(
                                #[trigger] v@[j],
                                cell.child_spec(j as u8),
                                registrations(reg.events()),
                            ),
                    decreases 8 - i,
                {
                    let ghost log_before = registrations(reg.events());
                    let ghost dlog_before = deregistrations(reg.events());
                    let ghost r1 = registered_ids(*reg);
                    let ghost d1 = deregistered_ids(*reg);
                    let ghost before = v@;
                    let child = SVO::height_map_sub(depth - 1, subs[i as usize], reg, cell.child(i));
                    v.push(child);
                    proof {
                        assert(children_handles(v@, i + 1) =~= children_handles(before, i as int).push(child.handles()));
                        children_handles(before, i as int).lemma_flatten_push(child.handles());
                        lemma_multiset_commutative(children_handles(before, i as int).flatten(), child.handles());
                        let a = children_handles(before, i as int).flatten().to_multiset();
                        let c = child.handles().to_multiset();
                        let r2 = registered_ids(*reg);
                        let d2 = deregistered_ids(*reg);
                        assert forall|x: u32| #[trigger] Multiset::<u32>::empty().add(r2).add(d0).count(x)
                            == a.add(c).add(d2).add(r0).count(x) by {
                            assert(Multiset::<u32>::empty().add(r1).add(d0).count(x) == a.add(d1).add(r0).count(x));
                            assert(Multiset::<u32>::empty().add(r2).add(d1).count(x) == c.add(d2).add(r1).count(x));
                        }
                        assert(Multiset::<u32>::empty().add(r2).add(d0) =~= a.add(c).add(d2).add(r0));
                        let log_after = registrations(reg.events());
                        lemma_prefix_trans(log0, log_before, log_after);
                        lemma_prefix_trans(dlog0, dlog_before, deregistrations(reg.events()));
                        assert forall|j: int| 0 <= j < i + 1 implies leaves_registered(
                            #[trigger] v@[j],
                            cell.child_spec(j as u8),
                            log_after,
                        ) by {
                            if j < i {
                                assert(v@[j] == before[j]);
                                assert forall|e: (u32, CellPos, VoxelData)| #[trigger] v@[j].leaf_records(cell.child_spec(j as u8)).contains(e) implies log_after.contains(e) by {
                                    lemma_prefix_contains(log_before, log_after, e);
                                }
                            }
                        }
                    }
                    i = i + 1;
                }
                let node = SVO::Octants(v);
                let ghost r1 = registered_ids(*reg);
                let ghost d1 = deregistered_ids(*reg);
                proof {
                    lemma_octants_view(v);
                    let d = (depth - 1) as nat;
                    assert(children_view(v@) =~= seq![
                        height_map_tree(d, o[0]),
                        height_map_tree(d, o[1]),
                        height_map_tree(d, o[2]),
                        height_map_tree(d, o[3]),
                        height_map_tree(d, o[4]),
                        height_map_tree(d, o[5]),
                        height_map_tree(d, o[6]),
                        height_map_tree(d, o[7]),
                    ]);
                    assert forall|j: int| 0 <= j < 8 implies (#[trigger] node@->children[j]).wf() by {
                        assert(node@->children[j] == v@[j]@);
                    }
                }
                proof {
                    lemma_octants_records(v, cell);
                    let parts = children_records(v@, cell);
                    let log1 = registrations(reg.events());
                    assert forall|e: (u32, CellPos, VoxelData)| #[trigger] node.leaf_records(cell).contains(e) implies log1.contains(e) by {
                        lemma_flatten_contains(parts, e);
                        let j = choose|j: int| 0 <= j < parts.len() && #[trigger] parts[j].contains(e);
                        assert(parts[j] == v@[j].leaf_records(cell.child_spec(j as u8)));
                        assert(leaves_registered(v@[j], cell.child_spec(j as u8), log1));
                    }
                }
                let ghost log1 = registrations(reg.events());
                let ghost dlog1 = deregistrations(reg.events());
                let r = node.recombine_svo(reg, cell);
                proof {
                    lemma_prefix_trans(log0, log1, registrations(reg.events()));
                    lemma_prefix_trans(dlog0, dlog1, deregistrations(reg.events()));
                    lemma_accounted_trans(
                        Multiset::empty(),
                        node.handles().to_multiset(),
                        r.handles().to_multiset(),
                        r0,
                        r1,
                        registered_ids(*reg),
                        d0,
                        d1,
                        deregistered_ids(*reg),
                    );
                }
                return r;
            }
        }
        let threshold = image.b_0 + (image.b_n - image.b_0) / 2;
        let voxel_type: i32 = if image.byte_avg() <= threshold { 0 } else { 1 };
        let data = VoxelData::new(voxel_type);
        let ghost reg0 = registrations(reg.events());
        let id = reg.register(cell, data);
        proof {
            assert(ids_of(registrations(reg.events())) =~= ids_of(reg0).push(id));
            ids_of(reg0).to_multiset_ensures();
            Seq::<u32>::empty().to_multiset_ensures();
            assert(seq![id] =~= Seq::<u32>::empty().push(id));
            let h = seq![id].to_multiset();
            let ra = registered_ids(*reg);
            let rb = ids_of(reg0).to_multiset();
            let d = deregistered_ids(*reg);
            assert(Multiset::<u32>::empty().add(ra).add(d) =~= h.add(d).add(rb));
            lemma_prefix_push(reg0, (id, cell, data));
            assert(registrations(reg.events())[reg0.len() as int] == (id, cell, data));
        }
        SVO::Voxel { data, external_id: id }
    }

    /// Builds an octree of the given depth from a grey-scale height map of
    /// `width` by `height` bytes, registering each leaf that it keeps.
    pub fn height_map<R: Register + Deregister>(
        depth: u32,
        image: &[u8],
        width: u32,
        height: u32,
        reg: &mut R,
    ) -> (r: SVO)
        requires
            old(reg).wf(),
            image@.len() == width * height,
            width * height <= u32::MAX,
            width > 0,
            height > 0,
        ensures
            final(reg).wf(),
            // depths beyond the representable ones are clamped
            r@ == height_map_tree(
                if depth <= MAX_DEPTH { depth as nat } else { MAX_DEPTH as nat },
                SubImage { image, image_width: width, x_0: 0, x_n: width, y_0: 0, y_n: height, b_0: 0, b_n: 255 },
            ),
            r@.wf(),
            handles_accounted(
                Multiset::empty(),
                r.handles().to_multiset(),
                registered_ids(*old(reg)),
                registered_ids(*final(reg)),
                deregistered_ids(*old(reg)),
                deregistered_ids(*final(reg)),
            ),
            registrations(old(reg).events()).is_prefix_of(registrations(final(reg).events())),
            leaves_registered(r, CellPos { depth: 0, x: 0, y: 0, z: 0 }, registrations(final(reg).events())),
            deregistrations(old(reg).events()).is_prefix_of(deregistrations(final(reg).events())),
    {
        let sub = SubImage::new(image, width, height);
        proof {
            assert(width * height > 0) by (nonlinear_arith)
                requires width > 0, height > 0;
        }
        let depth = if depth <= MAX_DEPTH { depth } else { MAX_DEPTH };
        SVO::height_map_sub(depth, sub, reg, CellPos::root())
    }
}

} // verus!
