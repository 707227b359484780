//! Screen capture: which parts of the screen to read again, and how they are put
//! together.
//!
//! The display server reports which rectangles were repainted, so an idle desktop costs
//! nothing and a small edit reads only its own rectangle. Frames are tightly packed
//! BGRA.
use vstd::prelude::*;

use crate::proto::MonitorInfo;
use crate::sort::{in_order, stable_sort, Ordered};
use crate::text::{
    chars_of, contents, decimal, number_of, parse_u64, pieces, push_decimal, split_on, split_words,
    starts, string_of, string_up, strung, subrange, views, words,
};

verus! {

/// A captured frame: tightly packed BGRA, `width * height * 4` bytes.
pub struct Frame<'a> {
    pub width: u32,
    pub height: u32,
    pub bgra: &'a [u8],
}

/// A way to capture a screen.
pub trait ScreenCapture {
    /// Block until the screen changes, or so many nanoseconds have passed. A backend
    /// that waits in [`Self::next_frame`] need not do it here.
    fn wait_for_change(&mut self, timeout: u64);

    /// Grab the next frame. `None` if the desktop has not changed.
    fn next_frame<'a>(&'a mut self) -> (r: Result<Option<Frame<'a>>, String>);

    /// The most recently captured frame, if any.
    fn last_frame<'a>(&'a self) -> (r: Option<Frame<'a>>);

    /// Columns and rows of the screen.
    fn dimensions(&self) -> (r: (u32, u32));
}

/// How often to read the whole screen again even when no change is reported, in
/// nanoseconds. Changes can be missed.
pub const FULL_RESYNC: u64 = 2_000_000_000;

/// Rectangles to track before the screen is taken to have changed as a whole.
pub const MAX_DAMAGE_EVENTS: usize = 32;

/// A rectangle of the screen.
#[derive(Debug, Clone, Copy, PartialEq, Eq, Structural)]
pub struct Rect {
    pub x: i16,
    pub y: i16,
    pub width: u16,
    pub height: u16,
}

impl Rect {
    /// Whether a pixel lies in the rectangle.
    pub open spec fn holds(self, px: int, py: int) -> bool {
        self.x <= px < self.x + self.width && self.y <= py < self.y + self.height
    }

    /// Whether the rectangle lies on a screen.
    pub open spec fn fits(self, width: int, height: int) -> bool {
        0 <= self.x && self.x + self.width <= width && 0 <= self.y && self.y + self.height
            <= height
    }

    /// The pixels of the rectangle.
    pub open spec fn area(self) -> int {
        self.width * self.height
    }
}

/// Clip a rectangle to the screen. A compositor can report changes that extend past it,
/// and asking for pixels outside it is an error.
pub fn clamp_rect(r: Rect, width: u32, height: u32) -> (c: Rect)
    requires
        width <= i32::MAX,
        height <= i32::MAX,
    ensures
        forall|px: int, py: int| #[trigger]
            c.holds(px, py) <==> r.holds(px, py) && 0 <= px < width && 0 <= py < height,
        c.width > 0 && c.height > 0 ==> c.fits(width as int, height as int),
{
    let x0: i32 = if r.x > 0 {
        r.x as i32
    } else {
        0
    };
    let y0: i32 = if r.y > 0 {
        r.y as i32
    } else {
        0
    };
    let right: i32 = r.x as i32 + r.width as i32;
    let below: i32 = r.y as i32 + r.height as i32;
    let x1: i32 = if right < width as i32 {
        right
    } else {
        width as i32
    };
    let y1: i32 = if below < height as i32 {
        below
    } else {
        height as i32
    };
    Rect {
        x: x0 as i16,
        y: y0 as i16,
        width: if x1 > x0 {
            (x1 - x0) as u16
        } else {
            0
        },
        height: if y1 > y0 {
            (y1 - y0) as u16
        } else {
            0
        },
    }
}

/// Adds a reported change to a batch, clipped to the screen. Says whether there are too
/// many to track. A change off the screen is none.
pub fn consider(batch: &mut Vec<Rect>, area: Rect, width: u32, height: u32) -> (r: bool)
    requires
        width <= i32::MAX,
        height <= i32::MAX,
    ensures
        r == (old(batch)@.len() >= MAX_DAMAGE_EVENTS),
        r ==> final(batch)@ == old(batch)@,
        !r && (exists|px: int, py: int| #[trigger]
            area.holds(px, py) && 0 <= px < width && 0 <= py < height) ==> {
            &&& final(batch)@.len() == old(batch)@.len() + 1
            &&& final(batch)@.drop_last() == old(batch)@
            &&& final(batch)@.last().fits(width as int, height as int)
            &&& forall|px: int, py: int| #[trigger]
                final(batch)@.last().holds(px, py) <==> area.holds(px, py) && 0 <= px < width && 0
                    <= py < height
        },
        !r && !(exists|px: int, py: int| #[trigger]
            area.holds(px, py) && 0 <= px < width && 0 <= py < height) ==> final(batch)@ == old(
            batch,
        )@,
{
    if batch.len() >= MAX_DAMAGE_EVENTS {
        return true;
    }
    let c = clamp_rect(area, width, height);
    if c.width > 0 && c.height > 0 {
        batch.push(c);
        assert(c.holds(c.x as int, c.y as int));
        assert(area.holds(c.x as int, c.y as int));
        assert(batch@.drop_last() =~= old(batch)@);
    } else {
        assert(forall|px: int, py: int| !(#[trigger] c.holds(px, py)));
        assert forall|px: int, py: int| !(#[trigger] area.holds(px, py) && 0 <= px < width && 0
            <= py < height) by {
            assert(!c.holds(px, py));
        }
    }
    false
}

/// Changes collected until they are asked for.
#[derive(Debug)]
pub struct DamageInbox {
    pub rects: Vec<Rect>,
    /// More arrived than are worth tracking.
    pub overflow: bool,
    /// Counts the batches, so that a waiter can tell whether one arrived.
    pub generation: u64,
}

impl DamageInbox {
    /// Nothing has changed.
    pub fn new() -> (r: Self)
        ensures
            r.rects@.len() == 0,
            !r.overflow,
            r.generation == 0,
    {
        DamageInbox { rects: Vec::new(), overflow: false, generation: 0 }
    }

    /// Takes in a batch. Where there are too many changes to track, all that is kept is
    /// that the whole screen changed.
    pub fn deliver(&mut self, batch: Vec<Rect>, overflow: bool)
        requires
            old(self).generation < u64::MAX,
        ensures
            final(self).generation == old(self).generation + 1,
            ({
                let too_many = overflow || old(self).rects@.len() + batch@.len()
                    > MAX_DAMAGE_EVENTS;
                &&& final(self).overflow == (old(self).overflow || too_many)
                &&& final(self).rects@ == if too_many {
                    Seq::empty()
                } else {
                    old(self).rects@ + batch@
                }
            }),
    {
        let have: usize = self.rects.len();
        if overflow || batch.len() > MAX_DAMAGE_EVENTS || have > MAX_DAMAGE_EVENTS - batch.len() {
            self.overflow = true;
            self.rects = Vec::new();
            assert(self.rects@ =~= Seq::<Rect>::empty());
        } else {
            let mut i: usize = 0;
            assert(self.rects@ =~= old(self).rects@ + batch@.take(0));
            while i < batch.len()
                invariant
                    i <= batch.len(),
                    self.rects@ == old(self).rects@ + batch@.take(i as int),
                    self.overflow == old(self).overflow,
                    self.generation == old(self).generation,
                decreases batch.len() - i,
            {
                self.rects.push(batch[i]);
                i = i + 1;
                assert(self.rects@ =~= old(self).rects@ + batch@.take(i as int));
            }
            assert(batch@.take(i as int) =~= batch@);
        }
        self.generation = self.generation + 1;
    }

    /// Takes everything reported since the last call. `None` means that the whole screen
    /// has changed.
    pub fn take(&mut self) -> (r: Option<Vec<Rect>>)
        ensures
            match r {
                None => old(self).overflow,
                Some(rects) => !old(self).overflow && rects@ == old(self).rects@,
            },
            !final(self).overflow,
            final(self).rects@.len() == 0,
            final(self).generation == old(self).generation,
    {
        let mut out: Vec<Rect> = Vec::new();
        core::mem::swap(&mut out, &mut self.rects);
        if self.overflow {
            self.overflow = false;
            return None;
        }
        Some(out)
    }
}

/// How to bring the picture up to date.
pub enum Grab {
    /// Nothing changed.
    Nothing,
    /// Read these rectangles.
    Rects { rects: Vec<Rect> },
    /// Read the whole screen and see whether it differs.
    Full,
}

/// The pixels of all rectangles, those in more than one counted each time.
pub open spec fn total_area(rects: Seq<Rect>) -> int
    decreases rects.len(),
{
    if rects.len() == 0 {
        0
    } else {
        total_area(rects.drop_last()) + rects.last().area()
    }
}

/// The pixels of rectangles add up: one has as many as columns times rows, and a list as many
/// as its parts.
pub proof fn areas_add_up(a: Seq<Rect>, b: Seq<Rect>, r: Rect)
    ensures
        total_area(seq![r]) == r.width * r.height,
        total_area(a + b) == total_area(a) + total_area(b),
    decreases b.len(),
{
    assert(seq![r].drop_last() =~= Seq::<Rect>::empty());
    assert(total_area(seq![r].drop_last()) == 0);
    if b.len() == 0 {
        assert(a + b =~= a);
    } else {
        areas_add_up(a, b.drop_last(), r);
        assert((a + b).drop_last() =~= a + b.drop_last());
    }
}

/// What has been reported about a screen.
pub enum Damage {
    /// Changes are not reported.
    Unknown,
    /// The whole screen has changed.
    All,
    Rects { rects: Vec<Rect> },
}

fn area_of(rects: &Vec<Rect>) -> (r: u128)
    ensures
        r == total_area(rects@),
{
    let mut sum: u128 = 0;
    let mut i: usize = 0;
    assert(rects@.take(0) =~= Seq::<Rect>::empty());
    while i < rects.len()
        invariant
            i <= rects.len(),
            sum == total_area(rects@.take(i as int)),
            sum <= i * 0xFFFF_0000,
        decreases rects.len() - i,
    {
        assert(rects@.take(i + 1).drop_last() =~= rects@.take(i as int));
        let rect = rects[i];
        assert(rect.width * rect.height <= 0xFFFF_0000) by (nonlinear_arith)
            requires
                0 <= rect.width <= 0xFFFF,
                0 <= rect.height <= 0xFFFF,
        ;
        sum = sum + rect.width as u128 * rect.height as u128;
        i = i + 1;
    }
    assert(rects@.take(i as int) =~= rects@);
    sum
}

/// How to bring the picture up to date.
///
/// A session that has no frame yet reads the whole screen: reports are of changes only,
/// and a still desktop reports none. Up to half the screen, rectangles are read one by
/// one; past that a single full read is cheaper. Now and then the whole screen is read
/// although nothing was reported.
pub fn next_grab(have_frame: bool, damage: Damage, resync_due: bool, width: u32, height: u32) -> (r:
    Grab)
    ensures
        match damage {
            Damage::Rects { rects } => if !have_frame {
                r is Full
            } else if rects@.len() == 0 {
                if resync_due {
                    r is Full
                } else {
                    r is Nothing
                }
            } else if total_area(rects@) <= (width * height) / 2 {
                r == (Grab::Rects { rects })
            } else {
                r is Full
            },
            _ => r is Full,
        },
{
    match damage {
        Damage::Rects { rects } => {
            if !have_frame {
                return Grab::Full;
            }
            if rects.len() == 0 {
                return if resync_due {
                    Grab::Full
                } else {
                    Grab::Nothing
                };
            }
            assert(width * height <= 0xFFFF_FFFE_0000_0001) by (nonlinear_arith)
                requires
                    0 <= width <= 0xFFFF_FFFF,
                    0 <= height <= 0xFFFF_FFFF,
            ;
            let limit: u64 = width as u64 * height as u64 / 2;
            if area_of(&rects) <= limit as u128 {
                Grab::Rects { rects }
            } else {
                Grab::Full
            }
        },
        _ => Grab::Full,
    }
}

/// How long to wait for a change: no longer than asked for, and no longer than until the
/// whole screen is due, but at least a millisecond.
pub fn wait_time(timeout: u64, since_full: u64) -> (r: u64)
    ensures
        ({
            let left = if since_full >= FULL_RESYNC {
                0int
            } else {
                FULL_RESYNC - since_full
            };
            let least = if left > 1_000_000 {
                left
            } else {
                1_000_000
            };
            r == if timeout < least {
                timeout as int
            } else {
                least
            }
        }),
{
    let left: u64 = if since_full >= FULL_RESYNC {
        0
    } else {
        FULL_RESYNC - since_full
    };
    let least: u64 = if left > 1_000_000 {
        left
    } else {
        1_000_000
    };
    if timeout < least {
        timeout
    } else {
        least
    }
}

/// A byte of the picture once a rectangle was put in place: the tile's colours in the
/// rectangle, fully opaque, and what was there elsewhere.
pub open spec fn patched_byte(
    buffer: Seq<u8>,
    width: int,
    r: Rect,
    tile: Seq<u8>,
    i: int,
) -> u8 {
    let (x, y, c) = (i / 4 % width, i / 4 / width, i % 4);
    if r.holds(x, y) {
        if c == 3 {
            0xff
        } else {
            tile[((y - r.y) * r.width + (x - r.x)) * 4 + c]
        }
    } else {
        buffer[i]
    }
}

/// The four bytes of the pixel in column `x` of row `y`.
pub open spec fn pixel(bytes: Seq<u8>, width: int, x: int, y: int) -> (u8, u8, u8, u8) {
    let at = (y * width + x) * 4;
    (bytes[at], bytes[at + 1], bytes[at + 2], bytes[at + 3])
}

/// `bytes` with full opacity.
pub open spec fn opaque_byte(bytes: Seq<u8>, i: int) -> u8 {
    if i % 4 == 3 && i / 4 * 4 + 4 <= bytes.len() {
        0xff
    } else {
        bytes[i]
    }
}

/// The picture of a screen, kept up to date.
pub struct Picture {
    width: u32,
    height: u32,
    buffer: Vec<u8>,
    have_frame: bool,
}

proof fn lemma_position(width: int, x: int, y: int, c: int)
    requires
        0 <= x < width,
        0 <= y,
        0 <= c < 4,
    ensures
        ((y * width + x) * 4 + c) / 4 == y * width + x,
        ((y * width + x) * 4 + c) % 4 == c,
        (y * width + x) % width == x,
        (y * width + x) / width == y,
        y * width >= 0,
{
    assert(y * width >= 0) by (nonlinear_arith)
        requires
            0 <= y,
            0 <= width,
    ;
    vstd::arithmetic::div_mod::lemma_fundamental_div_mod_converse(y * width + x, width, y, x);
}

proof fn lemma_rows(a: int, b: int, w: int)
    requires
        a <= b,
        0 <= w,
    ensures
        a * w <= b * w,
        (a + 1) * w == a * w + w,
{
    assert(a * w <= b * w) by (nonlinear_arith)
        requires
            a <= b,
            0 <= w,
    ;
    assert((a + 1) * w == a * w + w) by (nonlinear_arith);
}

/// The bytes of a rectangle of a screen, row by row.
pub open spec fn tile_of(screen: Seq<u8>, width: int, r: Rect) -> Seq<u8> {
    Seq::new(
        (r.area() * 4) as nat,
        |j: int|
            screen[((r.y + j / 4 / r.width as int) * width + r.x + j / 4 % r.width as int) * 4 + j
                % 4],
    )
}

/// A picture once a rectangle was put in place.
pub open spec fn patched(buffer: Seq<u8>, width: int, r: Rect, tile: Seq<u8>) -> Seq<u8> {
    Seq::new(buffer.len(), |i: int| patched_byte(buffer, width, r, tile, i))
}

/// A picture once rectangles were read again from a screen, one after the other.
pub open spec fn read_again(buffer: Seq<u8>, width: int, rects: Seq<Rect>, screen: Seq<u8>) -> Seq<
    u8,
>
    decreases rects.len(),
{
    if rects.len() == 0 {
        buffer
    } else {
        let r = rects.last();
        patched(
            read_again(buffer, width, rects.drop_last(), screen),
            width,
            r,
            tile_of(screen, width, r),
        )
    }
}

/// Whether a byte of a picture lies in one of the rectangles.
pub open spec fn among(rects: Seq<Rect>, width: int, i: int) -> bool {
    exists|k: int| 0 <= k < rects.len() && (#[trigger] rects[k]).holds(i / 4 % width, i / 4 / width)
}

proof fn lemma_read_again(
    buffer: Seq<u8>,
    width: int,
    height: int,
    rects: Seq<Rect>,
    screen: Seq<u8>,
    i: int,
)
    requires
        0 < width,
        0 < height,
        screen.len() == width * height * 4,
        buffer.len() == screen.len(),
        0 <= i < screen.len(),
        forall|k: int| 0 <= k < rects.len() ==> (#[trigger] rects[k]).fits(width, height),
        forall|j: int| 0 <= j < screen.len() && j % 4 == 3 ==> #[trigger] screen[j] == 0xff,
    ensures
        read_again(buffer, width, rects, screen).len() == buffer.len(),
        read_again(buffer, width, rects, screen)[i] == if among(rects, width, i) {
            screen[i]
        } else {
            buffer[i]
        },
    decreases rects.len(),
{
    if rects.len() > 0 {
        let front = rects.drop_last();
        let r = rects.last();
        assert(r == rects[rects.len() - 1]);
        assert forall|k: int| 0 <= k < front.len() implies (#[trigger] front[k]).fits(
            width,
            height,
        ) by {
            assert(front[k] == rects[k]);
        }
        lemma_read_again(buffer, width, height, front, screen, i);
        let (x, y, c) = (i / 4 % width, i / 4 / width, i % 4);
        if r.holds(x, y) {
            let (dx, dy, w) = (x - r.x, y - r.y, r.width as int);
            lemma_position(w, dx, dy, c);
            lemma_rows(dy, r.height - 1, w);
            assert((r.height - 1) * w + w == w * r.height) by (nonlinear_arith);
            let j = (dy * w + dx) * 4 + c;
            assert(0 <= j < r.area() * 4);
            vstd::arithmetic::div_mod::lemma_fundamental_div_mod(i / 4, width);
            assert(width * y == y * width) by (nonlinear_arith);
            assert((y * width + x) * 4 + c == i);
            assert(tile_of(screen, width, r)[j] == screen[i]);
            assert(among(rects, width, i));
        } else if among(front, width, i) {
            let k = choose|k: int| 0 <= k < front.len() && (#[trigger] front[k]).holds(x, y);
            assert(rects[k].holds(x, y));
        } else if among(rects, width, i) {
            let k = choose|k: int| 0 <= k < rects.len() && (#[trigger] rects[k]).holds(x, y);
            assert(front[k].holds(x, y));
        }
    }
}

/// Reading the changes again is as good as reading the whole screen: a picture that agrees
/// with the screen outside the rectangles is the screen once they were read.
pub proof fn reading_the_changes_is_enough(
    buffer: Seq<u8>,
    width: int,
    height: int,
    rects: Seq<Rect>,
    screen: Seq<u8>,
)
    requires
        0 < width,
        0 < height,
        screen.len() == width * height * 4,
        buffer.len() == screen.len(),
        forall|k: int| 0 <= k < rects.len() ==> (#[trigger] rects[k]).fits(width, height),
        forall|j: int| 0 <= j < screen.len() && j % 4 == 3 ==> #[trigger] screen[j] == 0xff,
        forall|i: int|
            0 <= i < screen.len() && !among(rects, width, i) ==> #[trigger] buffer[i] == screen[i],
    ensures
        read_again(buffer, width, rects, screen) == screen,
{
    let after = read_again(buffer, width, rects, screen);
    assert(screen.len() > 0) by (nonlinear_arith)
        requires
            0 < width,
            0 < height,
            screen.len() == width * height * 4,
    ;
    lemma_read_again(buffer, width, height, rects, screen, 0);
    assert forall|i: int| 0 <= i < screen.len() implies after[i] == screen[i] by {
        lemma_read_again(buffer, width, height, rects, screen, i);
    }
    assert(after =~= screen);
}

impl Picture {
    /// Columns and rows.
    pub closed spec fn size(&self) -> (u32, u32) {
        (self.width, self.height)
    }

    /// The bytes of the latest frame.
    pub closed spec fn bytes(&self) -> Seq<u8> {
        self.buffer@
    }

    /// Whether there is a frame.
    pub closed spec fn ready(&self) -> bool {
        self.have_frame
    }

    /// A frame has four bytes for each pixel.
    pub open spec fn wf(&self) -> bool {
        &&& self.size().0 * self.size().1 * 4 <= usize::MAX
        &&& self.ready() ==> self.bytes().len() == self.size().0 * self.size().1 * 4
    }

    /// A picture of a screen that was not read yet.
    pub fn new(width: u32, height: u32) -> (r: Self)
        requires
            width * height * 4 <= usize::MAX,
        ensures
            r.wf(),
            r.size() == (width, height),
            !r.ready(),
            r.bytes().len() == 0,
    {
        Picture { width, height, buffer: Vec::new(), have_frame: false }
    }

    /// Columns and rows.
    pub fn dimensions(&self) -> (r: (u32, u32))
        ensures
            r == self.size(),
    {
        (self.width, self.height)
    }

    /// The latest frame, if there is one.
    pub fn last_frame<'a>(&'a self) -> (r: Option<Frame<'a>>)
        ensures
            match r {
                Some(f) => self.ready() && f.width == self.size().0 && f.height == self.size().1
                    && f.bgra@ == self.bytes(),
                None => !self.ready(),
            },
    {
        if self.have_frame {
            Some(Frame { width: self.width, height: self.height, bgra: self.buffer.as_slice() })
        } else {
            None
        }
    }

    /// Puts a rectangle that was read again in place.
    pub fn patch(&mut self, r: Rect, tile: &Vec<u8>)
        requires
            old(self).wf(),
            old(self).ready(),
            r.fits(old(self).size().0 as int, old(self).size().1 as int),
            tile@.len() == r.area() * 4,
        ensures
            final(self).wf(),
            final(self).ready(),
            final(self).size() == old(self).size(),
            final(self).bytes() == patched(
                old(self).bytes(),
                old(self).size().0 as int,
                r,
                tile@,
            ),
            ({
                let w = old(self).size().0 as int;
                forall|x: int, y: int|
                    0 <= x < w && 0 <= y < old(self).size().1 ==> #[trigger] pixel(
                        final(self).bytes(),
                        w,
                        x,
                        y,
                    ) == if r.holds(x, y) {
                        let p = pixel(tile@, r.width as int, x - r.x, y - r.y);
                        (p.0, p.1, p.2, 0xffu8)
                    } else {
                        pixel(old(self).bytes(), w, x, y)
                    }
            }),
    {
        let ghost before = self.buffer@;
        let ghost w = self.width as int;
        let ghost h = self.height as int;
        let width: usize = self.width as usize;
        let (rx, ry): (usize, usize) = (r.x as usize, r.y as usize);
        let (rw, rh): (usize, usize) = (r.width as usize, r.height as usize);
        let mut y: usize = 0;
        while y < rh
            invariant
                self.wf(),
                self.have_frame,
                self.size() == old(self).size(),
                w == self.width,
                h == self.height,
                width == w,
                rx == r.x,
                ry == r.y,
                rw == r.width,
                rh == r.height,
                r.fits(w, h),
                tile@.len() == r.area() * 4,
                y <= rh,
                before == old(self).bytes(),
                self.buffer@.len() == before.len(),
                before.len() == w * h * 4,
                forall|i: int|
                    0 <= i < before.len() ==> (#[trigger] self.buffer@[i]) == if i / 4 / w < ry + y {
                        patched_byte(before, w, r, tile@, i)
                    } else {
                        before[i]
                    },
            decreases rh - y,
        {
            let mut x: usize = 0;
            while x < rw
                invariant
                    self.wf(),
                    self.have_frame,
                    self.size() == old(self).size(),
                    w == self.width,
                    h == self.height,
                    width == w,
                    rx == r.x,
                    ry == r.y,
                    rw == r.width,
                    rh == r.height,
                    r.fits(w, h),
                    tile@.len() == r.area() * 4,
                    y < rh,
                    x <= rw,
                    before == old(self).bytes(),
                    self.buffer@.len() == before.len(),
                    before.len() == w * h * 4,
                    forall|i: int|
                        0 <= i < before.len() ==> (#[trigger] self.buffer@[i]) == if i / 4 / w < ry
                            + y || (i / 4 / w == ry + y && i / 4 % w < rx + x) {
                            patched_byte(before, w, r, tile@, i)
                        } else {
                            before[i]
                        },
                decreases rw - x,
            {
                let ghost now = self.buffer@;
                proof {
                    lemma_position(w, rx + x, ry + y, 0);
                    lemma_rows(ry + y, h - 1, w);
                    assert(h * w == w * h) by (nonlinear_arith);
                    assert((h - 1) * w + w == h * w) by (nonlinear_arith);
                    assert(tile@.len() == tile.len());
                    lemma_rows(y as int, rh - 1, rw as int);
                    assert((rh - 1) * rw + rw == rw * rh) by (nonlinear_arith);
                    assert(0 <= y * rw) by (nonlinear_arith)
                        requires
                            0 <= y,
                            0 <= rw,
                    ;
                }
                let p: usize = ((ry + y) * width + (rx + x)) * 4;
                let t: usize = (y * rw + x) * 4;
                self.buffer.set(p, tile[t]);
                self.buffer.set(p + 1, tile[t + 1]);
                self.buffer.set(p + 2, tile[t + 2]);
                self.buffer.set(p + 3, 0xff);
                proof {
                    lemma_position(w, rx + x, ry + y, 1);
                    lemma_position(w, rx + x, ry + y, 2);
                    lemma_position(w, rx + x, ry + y, 3);
                    assert forall|i: int| 0 <= i < before.len() implies (#[trigger] self.buffer@[i])
                        == if i / 4 / w < ry + y || (i / 4 / w == ry + y && i / 4 % w < rx + (x + 1)) {
                        patched_byte(before, w, r, tile@, i)
                    } else {
                        before[i]
                    } by {
                        assert(now[i] == if i / 4 / w < ry + y || (i / 4 / w == ry + y && i / 4 % w
                            < rx + x) {
                            patched_byte(before, w, r, tile@, i)
                        } else {
                            before[i]
                        });
                        let q = i / 4;
                        if q / w == ry + y && q % w == rx + x {
                            vstd::arithmetic::div_mod::lemma_fundamental_div_mod(q, w);
                            assert(q == (ry + y) * w + (rx + x)) by (nonlinear_arith)
                                requires
                                    q == w * (q / w) + q % w,
                                    q / w == ry + y,
                                    q % w == rx + x,
                            ;
                            assert(p <= i < p + 4);
                        } else {
                            assert(i < p || i >= p + 4);
                        }
                    }
                }
                x = x + 1;
            }
            proof {
                assert forall|i: int| 0 <= i < before.len() implies (#[trigger] self.buffer@[i])
                    == if i / 4 / w < ry + (y + 1) {
                    patched_byte(before, w, r, tile@, i)
                } else {
                    before[i]
                } by {
                    let q = i / 4;
                    if q / w == ry + y && q % w >= rx + rw {
                        assert(!r.holds(q % w, q / w));
                    }
                }
            }
            y = y + 1;
        }
        proof {
            assert forall|i: int| 0 <= i < before.len() implies (#[trigger] self.buffer@[i])
                == patched_byte(before, w, r, tile@, i) by {
                let q = i / 4;
                if q / w >= ry + rh {
                    assert(!r.holds(q % w, q / w));
                }
            }
            assert(self.buffer@ =~= patched(before, w, r, tile@));
            assert forall|x: int, y: int| 0 <= x < w && 0 <= y < h implies #[trigger] pixel(
                self.buffer@,
                w,
                x,
                y,
            ) == if r.holds(x, y) {
                let p = pixel(tile@, r.width as int, x - r.x, y - r.y);
                (p.0, p.1, p.2, 0xffu8)
            } else {
                pixel(before, w, x, y)
            } by {
                lemma_position(w, x, y, 0);
                lemma_position(w, x, y, 1);
                lemma_position(w, x, y, 2);
                lemma_position(w, x, y, 3);
                lemma_rows(y, h - 1, w);
                assert((h - 1) * w + w == w * h) by (nonlinear_arith);
            }
        }
    }

    /// Takes in the whole screen. Says whether it differs from the frame before. Data
    /// that is too short or too long is filled up with zeros or cut.
    pub fn replace(&mut self, data: Vec<u8>) -> (r: bool)
        requires
            old(self).wf(),
        ensures
            final(self).wf(),
            final(self).ready(),
            final(self).size() == old(self).size(),
            ({
                let n = (old(self).size().0 * old(self).size().1 * 4) as int;
                let cut = Seq::new(
                    n as nat,
                    |i: int|
                        if i < data@.len() {
                            data@[i]
                        } else {
                            0u8
                        },
                );
                &&& final(self).bytes().len() == n
                &&& forall|i: int|
                    0 <= i < n ==> (#[trigger] final(self).bytes()[i]) == opaque_byte(cut, i)
                &&& r == (final(self).bytes() != old(self).bytes())
            }),
            forall|i: int|
                0 <= i < final(self).bytes().len() ==> #[trigger] final(self).bytes()[i] == if i % 4
                    == 3 {
                    0xff
                } else if i < data@.len() {
                    data@[i]
                } else {
                    0
                },
    {
        proof {
            assert(self.width * self.height >= 0) by (nonlinear_arith)
                requires
                    0 <= self.width,
                    0 <= self.height,
            ;
        }
        let n: usize = self.width as usize * self.height as usize * 4;
        let ghost cut = Seq::new(
            n as nat,
            |i: int|
                if i < data@.len() {
                    data@[i]
                } else {
                    0u8
                },
        );
        let mut out: Vec<u8> = Vec::new();
        let mut i: usize = 0;
        while i < n
            invariant
                i <= n,
                n % 4 == 0,
                out@.len() == i,
                cut == Seq::new(
                    n as nat,
                    |i: int|
                        if i < data@.len() {
                            data@[i]
                        } else {
                            0u8
                        },
                ),
                forall|j: int| 0 <= j < i ==> (#[trigger] out@[j]) == opaque_byte(cut, j),
            decreases n - i,
        {
            let b: u8 = if i % 4 == 3 {
                0xff
            } else if i < data.len() {
                data[i]
            } else {
                0
            };
            out.push(b);
            i = i + 1;
        }
        let mut same: bool = out.len() == self.buffer.len();
        let mut k: usize = 0;
        while same && k < out.len()
            invariant
                k <= out@.len(),
                same ==> out@.len() == self.buffer@.len(),
                same ==> forall|j: int| 0 <= j < k ==> out@[j] == self.buffer@[j],
                !same ==> out@ != self.buffer@,
            decreases out.len() - k, (if same { 1int } else { 0int }),
        {
            if out[k] != self.buffer[k] {
                assert(out@[k as int] != self.buffer@[k as int]);
                same = false;
            } else {
                k = k + 1;
            }
        }
        proof {
            if same {
                assert(out@ =~= self.buffer@);
            }
        }
        self.buffer = out;
        self.have_frame = true;
        !same
    }
}

/// Copies `height` rows of `width` pixels out of rows that are `pitch` bytes apart.
pub fn repack_rows(src: &[u8], pitch: usize, width: usize, height: usize) -> (r: Vec<u8>)
    requires
        width * 4 <= pitch,
        height > 0 ==> (height - 1) * pitch + width * 4 <= src@.len(),
        width * 4 * height <= usize::MAX,
    ensures
        r@.len() == width * 4 * height,
        forall|i: int|
            0 <= i < r@.len() ==> (#[trigger] r@[i]) == src@[i / (width * 4) * pitch + i % (width
                * 4)],
{
    let mut out: Vec<u8> = Vec::new();
    let row: usize = if width == 0 || height == 0 {
        0
    } else {
        proof {
            assert(width * 4 <= width * 4 * height) by (nonlinear_arith)
                requires
                    height > 0,
                    0 <= width,
            ;
        }
        width * 4
    };
    if row == 0 {
        proof {
            assert(width * 4 * height == 0) by (nonlinear_arith)
                requires
                    width == 0 || height == 0,
            ;
        }
        return out;
    }
    let mut y: usize = 0;
    while y < height
        invariant
            row == width * 4,
            row > 0,
            row <= pitch,
            y <= height,
            height > 0,
            (height - 1) * pitch + row <= src@.len(),
            out@.len() == y * row,
            forall|i: int|
                0 <= i < out@.len() ==> (#[trigger] out@[i]) == src@[i / (row as int) * pitch + i
                    % (row as int)],
        decreases height - y,
    {
        let mut x: usize = 0;
        proof {
            lemma_rows(y as int, height - 1, pitch as int);
            assert(0 <= y * pitch) by (nonlinear_arith)
                requires
                    0 <= y,
                    0 <= pitch,
            ;
            assert(src@.len() == src.len());
        }
        let base: usize = y * pitch;
        while x < row
            invariant
                row > 0,
                x <= row,
                base == y * pitch,
                base + row <= src@.len(),
                out@.len() == y * row + x,
                forall|i: int|
                    0 <= i < out@.len() ==> (#[trigger] out@[i]) == src@[i / (row as int) * pitch
                        + i % (row as int)],
            decreases row - x,
        {
            proof {
                assert(src@.len() == src.len());
                vstd::arithmetic::div_mod::lemma_fundamental_div_mod_converse(
                    y * row + x,
                    row as int,
                    y as int,
                    x as int,
                );
            }
            out.push(src[base + x]);
            x = x + 1;
        }
        proof {
            lemma_rows(y as int, y as int, row as int);
        }
        y = y + 1;
    }
    proof {
        assert(height * row == row * height) by (nonlinear_arith);
    }
    out
}

/// The monitors of a display server: its screens, in order.
pub fn list_monitors(screens: &Vec<(u16, u16)>) -> (r: Vec<MonitorInfo>)
    requires
        screens@.len() <= u32::MAX,
    ensures
        r@.len() == screens@.len(),
        forall|i: int|
            0 <= i < r@.len() ==> (#[trigger] r@[i]).id == i && r@[i].width == screens@[i].0
                && r@[i].height == screens@[i].1 && r@[i].name@ == "X11 screen "@ + decimal(
                i as nat,
            ),
{
    let mut out: Vec<MonitorInfo> = Vec::new();
    let mut i: usize = 0;
    while i < screens.len()
        invariant
            i <= screens.len(),
            screens@.len() <= u32::MAX,
            out@.len() == i,
            forall|j: int|
                0 <= j < i ==> (#[trigger] out@[j]).id == j && out@[j].width == screens@[j].0
                    && out@[j].height == screens@[j].1 && out@[j].name@ == "X11 screen "@ + decimal(
                    j as nat,
                ),
        decreases screens.len() - i,
    {
        let mut name = "X11 screen ".to_owned();
        push_decimal(&mut name, i as u64);
        out.push(
            MonitorInfo {
                id: i as u32,
                width: screens[i].0 as u32,
                height: screens[i].1 as u32,
                name,
            },
        );
        i = i + 1;
    }
    out
}

impl Ordered for u32 {
    open spec fn before(self, other: Self) -> bool {
        self < other
    }

    proof fn before_is_an_order(a: Self, b: Self, c: Self) {
    }

    fn goes_before(&self, other: &Self) -> (r: bool) {
        *self < *other
    }
}

/// The display number that a socket name stands for: an `X` and a number of 32 bits.
pub open spec fn display_number(name: Seq<char>) -> Option<u32> {
    if name.len() > 0 && name[0] == 'X' {
        match number_of(name.skip(1)) {
            Some(n) => if n <= u32::MAX {
                Some(n as u32)
            } else {
                None
            },
            None => None,
        }
    } else {
        None
    }
}

/// The display numbers of all names that stand for one, in the order of the names.
pub open spec fn display_numbers(names: Seq<String>) -> Seq<u32>
    decreases names.len(),
{
    if names.len() == 0 {
        Seq::empty()
    } else {
        match display_number(names.last()@) {
            Some(n) => display_numbers(names.drop_last()).push(n),
            None => display_numbers(names.drop_last()),
        }
    }
}

proof fn lemma_display_numbers(names: Seq<String>, n: u32)
    ensures
        display_numbers(names).contains(n) <==> exists|k: int|
            0 <= k < names.len() && display_number((#[trigger] names[k])@) == Some(n),
    decreases names.len(),
{
    if names.len() > 0 {
        let front = names.drop_last();
        lemma_display_numbers(front, n);
        let (before, after) = (display_numbers(front), display_numbers(names));
        if let Some(m) = display_number(names.last()@) {
            assert(after == before.push(m));
            assert(after[before.len() as int] == m);
            if before.contains(n) {
                let i = choose|i: int| 0 <= i < before.len() && before[i] == n;
                assert(after[i] == n);
            }
            if after.contains(n) && m != n {
                let i = choose|i: int| 0 <= i < after.len() && after[i] == n;
                assert(before[i] == n);
            }
        }
        if exists|k: int| 0 <= k < front.len() && display_number((#[trigger] front[k])@) == Some(n) {
            let k = choose|k: int|
                0 <= k < front.len() && display_number((#[trigger] front[k])@) == Some(n);
            assert(names[k] == front[k]);
        }
        if exists|k: int| 0 <= k < names.len() && display_number((#[trigger] names[k])@) == Some(n) {
            let k = choose|k: int|
                0 <= k < names.len() && display_number((#[trigger] names[k])@) == Some(n);
            if k < front.len() {
                assert(names[k] == front[k]);
            }
        }
    }
}

/// Every display with a socket is listed, none else is, and they come lowest first.
pub proof fn every_display_is_listed(names: Seq<String>, n: u32)
    ensures
        ({
            let listed = in_order(display_numbers(names));
            &&& (exists|k: int|
                0 <= k < names.len() && (#[trigger] names[k])@ == seq!['X'] + decimal(n as nat))
                ==> listed.contains(n)
            &&& listed.contains(n) ==> exists|k: int|
                0 <= k < names.len() && (#[trigger] names[k])@.len() > 1 && names[k]@[0] == 'X'
                    && number_of(names[k]@.skip(1)) == Some(n as nat)
            &&& forall|i: int, j: int|
                0 <= i < j < listed.len() ==> #[trigger] listed[i] <= #[trigger] listed[j]
            &&& listed.len() <= names.len()
        }),
{
    broadcast use vstd::seq_lib::group_to_multiset_ensures;

    let numbers = display_numbers(names);
    let listed = in_order(numbers);
    crate::sort::sorting_keeps_the_entries(numbers);
    assert(listed.contains(n) <==> numbers.contains(n)) by {
        assert(listed.to_multiset().count(n) == numbers.to_multiset().count(n));
    }
    lemma_display_numbers(names, n);
    lemma_no_more_numbers(names);
    if exists|k: int|
        0 <= k < names.len() && (#[trigger] names[k])@ == seq!['X'] + decimal(n as nat) {
        let k = choose|k: int|
            0 <= k < names.len() && (#[trigger] names[k])@ == seq!['X'] + decimal(n as nat);
        assert(names[k]@.skip(1) =~= decimal(n as nat));
        crate::text::decimal_reads_back(n as nat);
        assert(display_number(names[k]@) == Some(n));
    }
    assert forall|i: int, j: int| 0 <= i < j < listed.len() implies #[trigger] listed[i]
        <= #[trigger] listed[j] by {
        assert(!crate::sort::comes_before(listed[j], listed[i]));
    }
}

proof fn lemma_no_more_numbers(names: Seq<String>)
    ensures
        display_numbers(names).len() <= names.len(),
    decreases names.len(),
{
    if names.len() > 0 {
        lemma_no_more_numbers(names.drop_last());
    }
}

/// The displays with a socket on this machine, lowest first: the login screen is usually
/// a high number and a real session a low one.
pub fn local_displays(names: &Vec<String>) -> (r: Vec<String>)
    ensures
        ({
            let numbers = in_order(display_numbers(names@));
            &&& r@.len() == numbers.len()
            &&& forall|i: int|
                0 <= i < r@.len() ==> (#[trigger] r@[i])@ == seq![':'] + decimal(numbers[i] as nat)
        }),
{
    let mut found: Vec<u32> = Vec::new();
    let mut i: usize = 0;
    assert(names@.take(0) =~= Seq::<String>::empty());
    while i < names.len()
        invariant
            i <= names.len(),
            found@ == display_numbers(names@.take(i as int)),
        decreases names.len() - i,
    {
        assert(names@.take(i + 1).drop_last() =~= names@.take(i as int));
        let v = chars_of(&names[i]);
        if v.len() > 0 && v[0] == 'X' {
            let rest = subrange(&v, 1, v.len());
            assert(rest@ =~= v@.skip(1));
            if let Some(n) = parse_u64(&rest) {
                if n <= 0xFFFF_FFFF {
                    found.push(n as u32);
                }
            }
        }
        i = i + 1;
    }
    assert(names@.take(i as int) =~= names@);
    let sorted = stable_sort(found);
    let mut out: Vec<String> = Vec::new();
    let mut k: usize = 0;
    while k < sorted.len()
        invariant
            k <= sorted.len(),
            out@.len() == k,
            forall|j: int|
                0 <= j < k ==> (#[trigger] out@[j])@ == seq![':'] + decimal(sorted@[j] as nat),
        decreases sorted.len() - k,
    {
        let mut name = String::new();
        name.push(':');
        push_decimal(&mut name, sorted[k] as u64);
        assert(name@ =~= seq![':'] + decimal(sorted@[k as int] as nat));
        out.push(name);
        k = k + 1;
    }
    out
}

/// Where a signed-in user's own files are kept while they are signed in.
pub fn run_dir(uid: u32) -> (r: String)
    ensures
        r@ == "/run/user/"@ + decimal(uid as nat),
{
    let mut out = "/run/user/".to_owned();
    push_decimal(&mut out, uid as u64);
    out
}

/// The start of the name of a cookie file that a compositor writes.
pub const COOKIE_PREFIX: &'static str = ".mutter-Xwaylandauth";

/// The cookie file that is set.
pub open spec fn setting_cookie(setting: Option<String>) -> Seq<Option<Seq<char>>> {
    match setting {
        Some(s) => seq![Some(s@)],
        None => Seq::empty(),
    }
}

/// The cookie file in the home directory.
pub open spec fn home_cookie(home: Option<String>) -> Seq<Option<Seq<char>>> {
    match home {
        Some(h) => seq![Some(crate::robot_files::path_join(h@, ".Xauthority"@))],
        None => Seq::empty(),
    }
}

/// Cookie files worth trying, most likely first, before it is looked which of them
/// exist: what is set, the signed-in user's, the home directory's, those of a compositor,
/// and none at all.
pub fn cookie_candidates(
    setting: Option<String>,
    uid: u32,
    home: Option<String>,
    run_entries: &Vec<String>,
) -> (r: Vec<Option<String>>)
    ensures
        ({
            let run = "/run/user/"@ + decimal(uid as nat);
            let first = setting_cookie(setting);
            let second = seq![Some(crate::robot_files::path_join(run, "gdm/Xauthority"@))];
            let third = home_cookie(home);
            cookie_views(r@) == first + second + third + compositor_cookies(run, run_entries@) + seq![
                None::<Seq<char>>,
            ]
        }),
        setting matches Some(s) ==> cookie_views(r@)[0] == Some(s@),
        r@.len() > 0 && r@.last() is None,
        cookie_views(r@).contains(
            Some(
                crate::robot_files::path_join(
                    "/run/user/"@ + decimal(uid as nat),
                    "gdm/Xauthority"@,
                ),
            ),
        ),
        home matches Some(h) ==> cookie_views(r@).contains(
            Some(crate::robot_files::path_join(h@, ".Xauthority"@)),
        ),
{
    let run = run_dir(uid);
    let mut out: Vec<Option<String>> = Vec::new();
    assert(cookie_views(out@) =~= Seq::<Option<Seq<char>>>::empty());
    let ghost first = setting_cookie(setting);
    if let Some(s) = setting {
        out.push(Some(s));
    }
    assert(cookie_views(out@) =~= first);
    out.push(Some(crate::robot_files::join(&run, "gdm/Xauthority")));
    let ghost second = first + seq![Some(crate::robot_files::path_join(run@, "gdm/Xauthority"@))];
    assert(cookie_views(out@) =~= second);
    if let Some(h) = &home {
        out.push(Some(crate::robot_files::join(h, ".Xauthority")));
    }
    let ghost third = second + home_cookie(home);
    assert(cookie_views(out@) =~= third);
    let mut i: usize = 0;
    assert(run_entries@.take(0) =~= Seq::<String>::empty());
    assert(cookie_views(out@) =~= third + compositor_cookies(run@, run_entries@.take(0)));
    while i < run_entries.len()
        invariant
            i <= run_entries.len(),
            cookie_views(out@) == third + compositor_cookies(run@, run_entries@.take(i as int)),
        decreases run_entries.len() - i,
    {
        assert(run_entries@.take(i + 1).drop_last() =~= run_entries@.take(i as int));
        let ghost before = cookie_views(out@);
        if has_prefix(&run_entries[i], COOKIE_PREFIX) {
            let path = crate::robot_files::join(&run, &run_entries[i]);
            out.push(Some(path));
            assert(cookie_views(out@) =~= before.push(Some(path@)));
            assert(cookie_views(out@) =~= third + compositor_cookies(
                run@,
                run_entries@.take(i + 1),
            ));
        }
        i = i + 1;
    }
    assert(run_entries@.take(i as int) =~= run_entries@);
    let ghost before = cookie_views(out@);
    out.push(None);
    assert(cookie_views(out@) =~= before.push(None));
    assert(cookie_views(out@) =~= before + seq![None::<Seq<char>>]);
    proof {
        let all = cookie_views(out@);
        let n = first.len() as int;
        assert(all[n] == Some(crate::robot_files::path_join(run@, "gdm/Xauthority"@)));
        if let Some(h) = home {
            assert(all[n + 1] == Some(crate::robot_files::path_join(h@, ".Xauthority"@)));
        }
        assert(all.last() is None);
        assert(all[out@.len() - 1] is None);
    }
    out
}

/// The texts of a list, where there are any.
pub open spec fn cookie_views(v: Seq<Option<String>>) -> Seq<Option<Seq<char>>> {
    v.map_values(
        |x: Option<String>|
            match x {
                Some(s) => Some(s@),
                None => None,
            },
    )
}

/// The cookie files that a compositor wrote.
pub open spec fn compositor_cookies(run: Seq<char>, names: Seq<String>) -> Seq<Option<Seq<char>>>
    decreases names.len(),
{
    if names.len() == 0 {
        Seq::empty()
    } else {
        let before = compositor_cookies(run, names.drop_last());
        if starts(names.last()@, COOKIE_PREFIX@) {
            before.push(Some(crate::robot_files::path_join(run, names.last()@)))
        } else {
            before
        }
    }
}

/// A compositor's cookie files are those whose names start as it starts them, in the
/// directory that they were found in.
pub proof fn a_compositors_cookies_are_found(run: Seq<char>, names: Seq<String>, k: int)
    requires
        0 <= k < names.len(),
    ensures
        names[k]@.len() >= COOKIE_PREFIX@.len() && names[k]@.take(COOKIE_PREFIX@.len() as int)
            == COOKIE_PREFIX@ ==> compositor_cookies(run, names).contains(
            Some(crate::robot_files::path_join(run, names[k]@)),
        ),
        forall|i: int|
            0 <= i < compositor_cookies(run, names).len() ==> exists|j: int|
                #[trigger] compositor_cookies(run, names)[i] == Some(
                    crate::robot_files::path_join(run, (#[trigger] names[j])@),
                ) && 0 <= j < names.len() && starts(names[j]@, COOKIE_PREFIX@),
    decreases names.len(),
{
    let front = names.drop_last();
    let (before, after) = (compositor_cookies(run, front), compositor_cookies(run, names));
    if front.len() > 0 {
        let m = if k < front.len() {
            k
        } else {
            0
        };
        a_compositors_cookies_are_found(run, front, m);
        assert(front[m] == names[m]);
    }
    let path = Some(crate::robot_files::path_join(run, names[k]@));
    if k < front.len() {
        if before.contains(path) {
            let i = choose|i: int| 0 <= i < before.len() && before[i] == path;
            assert(after[i] == path);
        }
    } else if starts(names.last()@, COOKIE_PREFIX@) {
        assert(after[before.len() as int] == path);
    }
    assert forall|i: int| 0 <= i < after.len() implies exists|j: int|
        #[trigger] after[i] == Some(crate::robot_files::path_join(run, (#[trigger] names[j])@)) && 0
            <= j < names.len() && starts(names[j]@, COOKIE_PREFIX@) by {
        if i < before.len() {
            assert(after[i] == before[i]);
            let j = choose|j: int|
                #[trigger] before[i] == Some(
                    crate::robot_files::path_join(run, (#[trigger] front[j])@),
                ) && 0 <= j < front.len() && starts(front[j]@, COOKIE_PREFIX@);
            assert(names[j] == front[j]);
        } else {
            let j = names.len() - 1;
            assert(names[j] == names.last());
        }
    }
}

/// Whether a text starts with another.
pub fn has_prefix(s: &str, prefix: &str) -> (r: bool)
    ensures
        r == starts(s@, prefix@),
{
    let a = chars_of(s);
    let p = chars_of(prefix);
    if a.len() < p.len() {
        return false;
    }
    let head = subrange(&a, 0, p.len());
    assert(head@ =~= a@.take(p@.len() as int));
    crate::text::same(&string_of(&head), prefix)
}

/// The user id in the lines of a process status: the first number of the line for it.
pub open spec fn uid_in(lines: Seq<Seq<char>>) -> Option<Seq<Seq<char>>>
    decreases lines.len(),
{
    if lines.len() == 0 {
        None
    } else if starts(lines[0], "Uid:"@) {
        Some(words(lines[0].skip("Uid:"@.len() as int)))
    } else {
        uid_in(lines.drop_first())
    }
}

/// The first line that starts with `Uid:` is the one that counts.
pub proof fn the_first_uid_line_counts(before: Seq<Seq<char>>, line: Seq<char>, rest: Seq<Seq<char>>)
    requires
        forall|i: int| 0 <= i < before.len() ==> !starts(#[trigger] before[i], "Uid:"@),
    ensures
        uid_in(before) is None,
        uid_in(before + seq!["Uid:"@ + line] + rest) == Some(words(line)),
    decreases before.len(),
{
    let all = before + seq!["Uid:"@ + line] + rest;
    if before.len() == 0 {
        assert(all[0] == "Uid:"@ + line);
        assert(all[0].take("Uid:"@.len() as int) =~= "Uid:"@);
        assert(all[0].skip("Uid:"@.len() as int) =~= line);
    } else {
        let shorter = before.drop_first();
        assert forall|i: int| 0 <= i < shorter.len() implies !starts(#[trigger] shorter[i], "Uid:"@) by {
            assert(shorter[i] == before[i + 1]);
        }
        the_first_uid_line_counts(shorter, line, rest);
        assert(all.drop_first() =~= shorter + seq!["Uid:"@ + line] + rest);
        assert(all[0] == before[0]);
    }
}

/// This process's real user id, from its status. 1000 where the status does not say.
pub fn real_uid(status: &str) -> (r: u32)
    ensures
        r == match uid_in(pieces(status@, '\n')) {
            Some(w) => if w.len() == 0 {
                1000
            } else {
                match number_of(w[0]) {
                    Some(n) => if n <= u32::MAX {
                        n as int
                    } else {
                        1000
                    },
                    None => 1000,
                }
            },
            None => 1000,
        },
{
    let lines = split_on(&chars_of(status), '\n');
    let ghost all = views(lines@);
    let prefix = chars_of("Uid:");
    let mut i: usize = 0;
    assert(all.skip(0) =~= all);
    while i < lines.len()
        invariant
            i <= lines.len(),
            all == views(lines@),
            all == pieces(status@, '\n'),
            prefix@ == "Uid:"@,
            uid_in(all) == uid_in(all.skip(i as int)),
        decreases lines.len() - i,
    {
        assert(all.skip(i as int)[0] == lines@[i as int]@);
        assert(all.skip(i as int).drop_first() =~= all.skip(i + 1));
        if has_prefix(&string_of(&lines[i]), "Uid:") {
            let w = split_words(&lines[i], prefix.len());
            assert(views(w@).len() == w@.len());
            if w.len() == 0 {
                return 1000;
            }
            assert(views(w@)[0] == w@[0]@);
            return match parse_u64(&w[0]) {
                Some(n) => if n <= 0xFFFF_FFFF {
                    n as u32
                } else {
                    1000
                },
                None => 1000,
            };
        }
        i = i + 1;
    }
    1000
}

pub const HINT_NO_DISPLAY: &'static str = "DISPLAY is not set. On a headless robot, start a virtual display first (`Xvfb :99 -screen 0 1920x1080x24 &`), then pass --display :99";

pub const HINT_WAYLAND: &'static str = "this is a Wayland session and Telekin captures X11 only. Either log in to an Xorg session, or run the desktop under a virtual X display";

pub const HINT_CHECK: &'static str = "check that an X server is running on this DISPLAY and that XAUTHORITY is readable by this user";

/// What to do about a display that cannot be reached. A desktop of another kind usually
/// still has a display set, so a missing one is the stronger sign.
pub fn display_hint(display_is_set: bool, wayland: bool) -> (r: &'static str)
    ensures
        r@ == if !display_is_set {
            HINT_NO_DISPLAY@
        } else if wayland {
            HINT_WAYLAND@
        } else {
            HINT_CHECK@
        },
{
    if !display_is_set {
        HINT_NO_DISPLAY
    } else if wayland {
        HINT_WAYLAND
    } else {
        HINT_CHECK
    }
}

/// What is said of a display that cannot be reached.
pub fn explain(display: &str, error: &str, wayland: bool) -> (r: String)
    ensures
        r@ == "cannot connect to the X display "@ + display@ + " ("@ + error@ + "): "@ + (
        if wayland {
            HINT_WAYLAND@
        } else {
            HINT_CHECK@
        }),
{
    let mut out = "cannot connect to the X display ".to_owned();
    out.push_str(display);
    out.push_str(" (");
    out.push_str(error);
    out.push_str("): ");
    out.push_str(display_hint(true, wayland));
    out
}

/// What to do where no display could be reached.
pub const NO_DESKTOP_HELP: &'static str = "). Sign in on the robot,          or start a virtual display (`Xvfb :99 -screen 0 1920x1080x24 &`) and pass          --display :99. Last error: ";

/// What is said where no display could be reached: those that were tried, and why the last
/// one failed.
pub fn no_desktop(displays: &Vec<String>, last: Option<String>) -> (r: String)
    ensures
        r@ == "no desktop session this account can reach ("@ + (if displays@.len() == 0 {
            "no X server is running on this machine"@
        } else {
            "tried "@ + strung(contents(displays@), ", "@)
        }) + NO_DESKTOP_HELP@ + (match last {
            Some(e) => e@,
            None => "none"@,
        }),
{
    let mut out = "no desktop session this account can reach (".to_owned();
    if displays.len() == 0 {
        out.push_str("no X server is running on this machine");
    } else {
        out.push_str("tried ");
        out.push_str(&string_up(displays, ", "));
    }
    out.push_str(NO_DESKTOP_HELP);
    match last {
        Some(e) => {
            out.push_str(&e);
        },
        None => {
            out.push_str("none");
        },
    }
    assert(out@ =~= "no desktop session this account can reach ("@ + (if displays@.len() == 0 {
        "no X server is running on this machine"@
    } else {
        "tried "@ + strung(contents(displays@), ", "@)
    }) + NO_DESKTOP_HELP@ + (match last {
        Some(e) => e@,
        None => "none"@,
    }));
    out
}

} // verus!
