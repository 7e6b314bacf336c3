//! Screen capture: the size a session is served at, the bitmap updates a frame is
//! cut into, and the order in which the capture loop acts.
use crate::time::{Duration, Instant};
use std::collections::VecDeque;
use std::sync::atomic::{AtomicBool, AtomicU32, AtomicU64, Ordering};
use std::sync::Arc;
use vstd::prelude::*;

verus! {

/// A desktop size in pixels.
#[derive(Debug, Clone, Copy, PartialEq, Eq, Structural)]
pub struct DesktopSize {
    pub width: u16,
    pub height: u16,
}

/// When a large change on screen asks for a keyframe.
#[derive(Debug, Clone, Copy, PartialEq, Eq, Structural)]
pub struct KeyframeOnChange {
    pub enabled: bool,
    /// Share of the frame, in percent, whose change asks for a keyframe.
    pub change_pct: u64,
    /// The share that suffices shortly after a click.
    pub click_pct: u64,
    /// How long after a click the lower share applies.
    pub click_window: Duration,
}

/// A moment as a click is remembered: whole milliseconds, never 0.
pub open spec fn click_mark(elapsed: Duration) -> u64 {
    let ms = (elapsed@ / crate::time::NANOS_PER_MILLI as nat) as u64;
    if ms == 0 {
        1
    } else {
        ms
    }
}

/// Whether a click marked `last` lies at most `window` before `elapsed`. The mark 0
/// stands for no click.
pub open spec fn clicked_within(last: u64, elapsed: Duration, window: Duration) -> bool {
    let now = (elapsed@ / crate::time::NANOS_PER_MILLI as nat) as u64;
    let span = (window@ / crate::time::NANOS_PER_MILLI as nat) as u64;
    last != 0 && (now >= last ==> now - last <= span)
}

pub fn click_stamp(elapsed: Duration) -> (ms: u64)
    ensures
        ms == click_mark(elapsed),
{
    let ms: u64 = elapsed.as_millis() as u64;
    if ms == 0 {
        1
    } else {
        ms
    }
}

pub fn recently_clicked(last: u64, elapsed: Duration, window: Duration) -> (r: bool)
    ensures
        r == clicked_within(last, elapsed, window),
{
    if last == 0 {
        return false;
    }
    let now: u64 = elapsed.as_millis() as u64;
    now.saturating_sub(last) <= window.as_millis() as u64
}

/// The last mouse click, shared between the input handler and the capture loop.
/// Moments are counted from the signal's creation. A new signal holds the mark 0. Nothing
/// is stated of the mark: another thread may store one, and atomics come without a view.
#[derive(Clone)]
pub struct ClickSignal {
    last_click_ms: Arc<AtomicU64>,
}

impl ClickSignal {
    pub fn new() -> Self {
        ClickSignal { last_click_ms: Arc::new(AtomicU64::new(0)) }
    }

    pub fn record_click(&self, elapsed: Duration) {
        self.last_click_ms.store(click_stamp(elapsed), Ordering::Relaxed);
    }

    pub fn within(&self, elapsed: Duration, window: Duration) -> (r: bool)
        ensures
            exists|last: u64| r == #[trigger] clicked_within(last, elapsed, window),
    {
        let last: u64 = self.last_click_ms.load(Ordering::Relaxed);
        recently_clicked(last, elapsed, window)
    }
}

/// A size in one word: the width in the upper half, the height in the lower.
pub open spec fn packed(width: u16, height: u16) -> u32 {
    (width * 0x1_0000 + height) as u32
}

pub open spec fn unpacked(v: u32) -> (u16, u16) {
    ((v / 0x1_0000) as u16, (v % 0x1_0000) as u16)
}

/// The session's desktop size, shared by capture, input scaling and the encoder.
/// Nothing is stated of what it holds: another thread may store, and atomics have no view.
#[derive(Clone)]
pub struct SharedDesktopSize {
    packed: Arc<AtomicU32>,
    letterbox: Arc<AtomicBool>,
}

impl SharedDesktopSize {
    pub fn new(width: u16, height: u16) -> Self {
        SharedDesktopSize {
            packed: Arc::new(AtomicU32::new(Self::pack(width, height))),
            letterbox: Arc::new(AtomicBool::new(false)),
        }
    }

    pub fn pack(width: u16, height: u16) -> (v: u32)
        ensures
            v == packed(width, height),
    {
        let w: u32 = width as u32;
        let h: u32 = height as u32;
        assert((w << 16) | h == w * 0x1_0000 + h) by (bit_vector)
            requires
                w <= 0xFFFF,
                h <= 0xFFFF,
        ;
        (w << 16) | h
    }

    pub fn unpack(v: u32) -> (r: (u16, u16))
        ensures
            r == unpacked(v),
    {
        assert(v >> 16 == v / 0x1_0000) by (bit_vector);
        assert(v & 0xFFFF == v % 0x1_0000) by (bit_vector);
        ((v >> 16) as u16, (v & 0xFFFF) as u16)
    }

    pub fn get(&self) -> (r: (u16, u16))
        ensures
            exists|v: u32| r == #[trigger] unpacked(v),
    {
        let v: u32 = self.packed.load(Ordering::Relaxed);
        Self::unpack(v)
    }

    pub fn set(&self, width: u16, height: u16) {
        self.packed.store(Self::pack(width, height), Ordering::Relaxed);
    }

    pub fn set_letterbox(&self, on: bool) {
        self.letterbox.store(on, Ordering::Relaxed);
    }

    pub fn letterbox(&self) -> bool {
        self.letterbox.load(Ordering::Relaxed)
    }
}

/// The sides that a client may ask for.
pub open spec fn in_band(side: u16) -> bool {
    200 <= side <= 8192
}

pub open spec fn adopts(auto_size: bool, current: (u16, u16), client: DesktopSize) -> bool {
    &&& auto_size
    &&& (client.width, client.height) != current
    &&& in_band(client.width)
    &&& in_band(client.height)
}

/// The client's size, where it is to be adopted.
pub fn adopt_client_size(auto_size: bool, current: (u16, u16), client: DesktopSize) -> (r: Option<
    DesktopSize,
>)
    ensures
        r == (if adopts(auto_size, current, client) {
            Some(client)
        } else {
            None
        }),
{
    if auto_size && (client.width != current.0 || client.height != current.1) && 200
        <= client.width && client.width <= 8192 && 200 <= client.height && client.height <= 8192 {
        Some(client)
    } else {
        None
    }
}

/// The size that a session is served at after the client has named its own.
pub open spec fn served_size(auto_size: bool, current: DesktopSize, client: DesktopSize) -> DesktopSize {
    if adopts(auto_size, (current.width, current.height), client) {
        client
    } else {
        current
    }
}

pub fn request_initial_size(auto_size: bool, current: DesktopSize, client: DesktopSize) -> (r:
    DesktopSize)
    ensures
        r == served_size(auto_size, current, client),
{
    match adopt_client_size(auto_size, (current.width, current.height), client) {
        Some(adopted) => adopted,
        None => current,
    }
}

/// A display as the system lists it.
#[derive(Debug, Clone, Copy, PartialEq, Eq, Structural)]
pub struct DisplayInfo {
    pub id: u32,
    pub width: u64,
    pub height: u64,
}

#[derive(Debug, Clone, Copy, PartialEq, Eq, Structural)]
pub enum CaptureError {
    NoDisplays,
    NoSuchDisplay(u32),
    WidthTooLarge,
    HeightTooLarge,
}

/// The listed display to capture: the first with the wanted id, or the first.
pub open spec fn chosen(displays: Seq<DisplayInfo>, target: Option<u32>) -> Option<DisplayInfo>
    decreases displays.len(),
{
    if displays.len() == 0 {
        None
    } else if target is None || displays[0].id == target->0 {
        Some(displays[0])
    } else {
        chosen(displays.drop_first(), target)
    }
}

pub open spec fn selection(displays: Seq<DisplayInfo>, target: Option<u32>) -> Result<
    (u32, u16, u16),
    CaptureError,
> {
    match chosen(displays, target) {
        None => match target {
            Some(id) => Err(CaptureError::NoSuchDisplay(id)),
            None => Err(CaptureError::NoDisplays),
        },
        Some(d) => if d.width > u16::MAX {
            Err(CaptureError::WidthTooLarge)
        } else if d.height > u16::MAX {
            Err(CaptureError::HeightTooLarge)
        } else {
            Ok((d.id, d.width as u16, d.height as u16))
        },
    }
}

/// Picks the display to capture and its size.
pub fn select_display(displays: &Vec<DisplayInfo>, target: Option<u32>) -> (r: Result<
    (u32, u16, u16),
    CaptureError,
>)
    ensures
        r == selection(displays@, target),
{
    let mut i: usize = 0;
    assert(displays@.skip(0) =~= displays@);
    while i < displays.len()
        invariant
            i <= displays.len(),
            chosen(displays@, target) == chosen(displays@.skip(i as int), target),
        decreases displays.len() - i,
    {
        let d: DisplayInfo = displays[i];
        let wanted: bool = match target {
            Some(id) => d.id == id,
            None => true,
        };
        if wanted {
            if d.width > u16::MAX as u64 {
                return Err(CaptureError::WidthTooLarge);
            }
            if d.height > u16::MAX as u64 {
                return Err(CaptureError::HeightTooLarge);
            }
            return Ok((d.id, d.width as u16, d.height as u16));
        }
        proof {
            assert(displays@.skip(i as int).drop_first() =~= displays@.skip(i + 1));
        }
        i = i + 1;
    }
    match target {
        Some(id) => Err(CaptureError::NoSuchDisplay(id)),
        None => Err(CaptureError::NoDisplays),
    }
}

/// The pixel size of a display in this mode.
pub open spec fn pixel_size(mode: Option<(u64, u64)>, native: (u16, u16)) -> (u16, u16) {
    match mode {
        Some((w, h)) => if w <= u16::MAX && h <= u16::MAX {
            (w as u16, h as u16)
        } else {
            native
        },
        None => native,
    }
}

/// The display's pixel size where its mode is known and fits, else its native size.
pub fn backing_size(mode: Option<(u64, u64)>, native: (u16, u16)) -> (r: (u16, u16))
    ensures
        r == pixel_size(mode, native),
{
    match mode {
        Some((w, h)) => if w <= u16::MAX as u64 && h <= u16::MAX as u64 {
            (w as u16, h as u16)
        } else {
            native
        },
        None => native,
    }
}

pub open spec fn scaling(
    native: (u16, u16),
    backing: (u16, u16),
    configured: (u16, u16),
    auto_size: bool,
    stretch: bool,
) -> (bool, bool) {
    let scaled = !(native == configured || backing == configured);
    (scaled, scaled && auto_size && !stretch)
}

/// Whether every frame is sent whole because the picture is scaled, and whether the
/// scaling keeps the aspect ratio.
pub fn capture_scaling_mode(
    native: (u16, u16),
    backing: (u16, u16),
    configured: (u16, u16),
    auto_size: bool,
    stretch: bool,
) -> (r: (bool, bool))
    ensures
        r == scaling(native, backing, configured, auto_size, stretch),
{
    let same_native: bool = native.0 == configured.0 && native.1 == configured.1;
    let same_backing: bool = backing.0 == configured.0 && backing.1 == configured.1;
    let force_full_frame: bool = !(same_native || same_backing);
    let letterbox: bool = force_full_frame && auto_size && !stretch;
    (force_full_frame, letterbox)
}

/// Pixels that one bitmap update holds at most.
pub const MAX_BITMAP_UPDATE_PIXELS: u32 = 921_600;

/// A rectangle: left, top, width, height.
pub type Rect = (u16, u16, u16, u16);

/// Rows of width `w` that fit into one update.
pub open spec fn strip_rows(w: int) -> int {
    MAX_BITMAP_UPDATE_PIXELS as int / w
}

/// The rectangle, cut into the tallest full-width strips that fit into one update.
pub open spec fn strips(x: u16, y: u16, w: u16, h: u16) -> Seq<Rect> {
    if w == 0 || h == 0 {
        Seq::empty()
    } else if w * h <= MAX_BITMAP_UPDATE_PIXELS {
        seq![(x, y, w, h)]
    } else {
        let rows = strip_rows(w as int);
        Seq::new(((h + rows - 1) / rows) as nat, |k: int| strip(x, y, w, h, rows, k * rows))
    }
}

/// The strip of at most `rows` rows that starts `from` rows below the top.
pub open spec fn strip(x: u16, y: u16, w: u16, h: u16, rows: int, from: int) -> Rect {
    (
        x,
        (y + from) as u16,
        w,
        (if rows <= h - from {
            rows
        } else {
            h - from
        }) as u16,
    )
}

/// Every strip starts at a row that a coordinate can name.
pub open spec fn strips_fit(y: u16, w: u16, h: u16) -> bool {
    ||| w == 0
    ||| h == 0
    ||| w * h <= MAX_BITMAP_UPDATE_PIXELS
    ||| y + ((h - 1) / strip_rows(w as int)) * strip_rows(w as int) <= u16::MAX
}

proof fn lemma_rows(w: u16, h: u16)
    requires
        w * h > MAX_BITMAP_UPDATE_PIXELS,
    ensures
        14 <= strip_rows(w as int) <= u16::MAX,
        strip_rows(w as int) * w <= MAX_BITMAP_UPDATE_PIXELS,
        w > 0,
        h > 0,
{
    assert(w >= 15) by (nonlinear_arith)
        requires
            w * h > 921_600,
            0 <= h <= 65535,
            0 <= w,
    ;
    assert(h > 0) by (nonlinear_arith)
        requires
            w * h > 921_600,
            0 <= h,
    ;
    let r = strip_rows(w as int);
    assert(14 <= r <= 65535 && r * w <= 921_600) by (nonlinear_arith)
        requires
            r == 921_600int / (w as int),
            15 <= w <= 65535,
    ;
}

/// Cuts a rectangle into strips that fit into one bitmap update each.
pub fn split_strips(x: u16, y: u16, w: u16, h: u16) -> (out: Vec<Rect>)
    requires
        strips_fit(y, w, h),
    ensures
        out@ == strips(x, y, w, h),
{
    if w == 0 || h == 0 {
        return Vec::new();
    }
    assert(w * h <= 65535 * 65535) by (nonlinear_arith)
        requires
            0 <= w <= 65535,
            0 <= h <= 65535,
    ;
    if w as u32 * h as u32 <= MAX_BITMAP_UPDATE_PIXELS {
        let mut out: Vec<Rect> = Vec::new();
        out.push((x, y, w, h));
        assert(out@ =~= strips(x, y, w, h));
        return out;
    }
    proof {
        lemma_rows(w, h);
    }
    let rows: u16 = (MAX_BITMAP_UPDATE_PIXELS / w as u32) as u16;
    let ghost n: int = (h + rows - 1) / rows as int;
    let ghost mut k: int = 0;
    let mut out: Vec<Rect> = Vec::new();
    let mut row: u16 = 0;
    while row < h
        invariant
            row <= h,
            w > 0,
            h > 0,
            w * h > MAX_BITMAP_UPDATE_PIXELS,
            rows == strip_rows(w as int),
            rows >= 14,
            strips_fit(y, w, h),
            k >= 0,
            out@.len() == k,
            row < h ==> row == k * rows,
            row == h ==> (k - 1) * rows < h <= k * rows,
            forall|i: int|
                0 <= i < k ==> #[trigger] out@[i] == strip(x, y, w, h, rows as int, i * rows),
        decreases h - row,
    {
        let sh: u16 = if rows <= h - row {
            rows
        } else {
            h - row
        };
        proof {
            let q = (h - 1) / rows as int;
            assert(k <= q && k * rows <= q * rows) by (nonlinear_arith)
                requires
                    k * rows <= h - 1,
                    rows >= 14,
                    q == (h - 1) / rows as int,
            ;
            assert((k + 1) * rows == k * rows + rows) by (nonlinear_arith);
        }
        let ghost start = row;
        out.push((x, y + row, w, sh));
        row = row + sh;
        proof {
            assert(out@[k] == strip(x, y, w, h, rows as int, start as int));
            k = k + 1;
        }
    }
    proof {
        assert(n == k) by (nonlinear_arith)
            requires
                n == (h + rows - 1) / rows as int,
                (k - 1) * rows < h <= k * rows,
                rows >= 14,
        ;
        assert(out@ =~= strips(x, y, w, h));
    }
    out
}

/// The pixel formats that updates are made in.
#[derive(Debug, Clone, Copy, PartialEq, Eq, Structural)]
pub enum PixelFormat {
    BgrA32,
    ARgb32,
}

#[derive(Debug)]
pub struct BitmapUpdate {
    pub x: u16,
    pub y: u16,
    pub width: u16,
    pub height: u16,
    pub format: PixelFormat,
    pub data: Vec<u8>,
    pub stride: usize,
}

/// A pointer shape with its hotspot.
#[derive(Debug)]
pub struct RgbaPointer {
    pub cache_index: u16,
    pub width: u16,
    pub height: u16,
    pub hot_x: u16,
    pub hot_y: u16,
    pub data: Vec<u8>,
}

/// What the capture loop sends to the client.
#[derive(Debug)]
pub enum DisplayUpdate {
    Bitmap(BitmapUpdate),
    Resize(DesktopSize),
    Pointer(RgbaPointer),
    PointerPosition(u16, u16),
}

/// The last byte that a rectangle needs lies within a frame of `len` bytes.
pub open spec fn rect_in_frame(len: int, stride: int, x: int, y: int, w: int, h: int) -> bool {
    w > 0 && h > 0 ==> (y + h - 1) * stride + 4 * x + 4 * w <= len
}

/// The rectangle's pixels, row after row, four bytes each.
pub open spec fn rect_bytes(src: Seq<u8>, stride: int, x: int, y: int, w: int, h: int) -> Seq<u8> {
    Seq::new(
        (4 * w * h) as nat,
        |i: int| src[(y + i / (4 * w)) * stride + 4 * x + i % (4 * w)],
    )
}

/// The update shows the rectangle of the frame.
pub open spec fn shows(u: BitmapUpdate, src: Seq<u8>, stride: int, r: Rect) -> bool {
    &&& u.x == r.0 && u.y == r.1 && u.width == r.2 && u.height == r.3
    &&& u.format == PixelFormat::BgrA32
    &&& u.stride == 4 * r.2
    &&& u.data@ == rect_bytes(src, stride, r.0 as int, r.1 as int, r.2 as int, r.3 as int)
}

/// Copies a rectangle out of a frame whose rows lie `src_stride` bytes apart.
pub fn rect_update(src: &[u8], src_stride: usize, x: u16, y: u16, w: u16, h: u16) -> (r: Option<
    BitmapUpdate,
>)
    requires
        rect_in_frame(src@.len() as int, src_stride as int, x as int, y as int, w as int, h as int),
    ensures
        r is Some <==> w > 0 && h > 0,
        r matches Some(u) ==> shows(u, src@, src_stride as int, (x, y, w, h)),
{
    if w == 0 || h == 0 {
        return None;
    }
    let len: usize = src.len();
    let row_bytes: usize = w as usize * 4;
    let mut data: Vec<u8> = Vec::new();
    let mut row: usize = 0;
    while row < h as usize
        invariant
            row <= h,
            w > 0,
            row_bytes == 4 * w,
            rect_in_frame(
                src@.len() as int,
                src_stride as int,
                x as int,
                y as int,
                w as int,
                h as int,
            ),
            src@.len() == len,
            data@.len() == row * row_bytes,
            forall|i: int|
                0 <= i < data@.len() ==> #[trigger] data@[i] == src@[(y + i / (4 * w)) * src_stride
                    + 4 * x + i % (4 * w)],
        decreases h - row,
    {
        proof {
            assert((y + row) * src_stride <= (y + h - 1) * src_stride) by (nonlinear_arith)
                requires
                    row <= h - 1,
                    0 <= src_stride,
            ;
            assert((y + row) * src_stride >= 0) by (nonlinear_arith)
                requires
                    0 <= src_stride,
                    0 <= y + row,
            ;
        }
        let src_off: usize = (y as usize + row) * src_stride + x as usize * 4;
        let mut col: usize = 0;
        while col < row_bytes
            invariant
                col <= row_bytes,
                w > 0,
                row < h,
                row_bytes == 4 * w,
                src_off == (y + row) * src_stride + 4 * x,
                src_off + row_bytes <= src@.len(),
                src@.len() == len,
                data@.len() == row * row_bytes + col,
                forall|i: int|
                    0 <= i < data@.len() ==> #[trigger] data@[i] == src@[(y + i / (4 * w))
                        * src_stride + 4 * x + i % (4 * w)],
            decreases row_bytes - col,
        {
            proof {
                let i = row * row_bytes + col;
                vstd::arithmetic::div_mod::lemma_fundamental_div_mod_converse(
                    i,
                    row_bytes as int,
                    row as int,
                    col as int,
                );
            }
            data.push(src[src_off + col]);
            col = col + 1;
        }
        proof {
            assert((row + 1) * row_bytes == row * row_bytes + row_bytes) by (nonlinear_arith);
        }
        row = row + 1;
    }
    proof {
        assert(h * row_bytes == 4 * w * h) by (nonlinear_arith)
            requires
                row_bytes == 4 * w,
        ;
        assert(data@ =~= rect_bytes(
            src@,
            src_stride as int,
            x as int,
            y as int,
            w as int,
            h as int,
        ));
    }
    Some(
        BitmapUpdate {
            x,
            y,
            width: w,
            height: h,
            format: PixelFormat::BgrA32,
            data,
            stride: row_bytes,
        },
    )
}

/// A changed area in whole pixels, as the system reports it.
#[derive(Debug, Clone, Copy, PartialEq, Eq, Structural)]
pub struct DirtyRect {
    pub x: u32,
    pub y: u32,
    pub w: u32,
    pub h: u32,
}

/// The part of the area that lies within the frame.
pub open spec fn clipped(r: DirtyRect, width: u16, height: u16) -> Rect {
    let x = crate::order::smaller(r.x as int, width as int);
    let y = crate::order::smaller(r.y as int, height as int);
    (
        x as u16,
        y as u16,
        crate::order::smaller(r.w as int, width - x) as u16,
        crate::order::smaller(r.h as int, height - y) as u16,
    )
}

/// The visible parts of the changed areas, empty ones left out.
pub open spec fn visible(dirty: Seq<DirtyRect>, width: u16, height: u16) -> Seq<Rect>
    decreases dirty.len(),
{
    if dirty.len() == 0 {
        Seq::empty()
    } else {
        let c = clipped(dirty.last(), width, height);
        let rest = visible(dirty.drop_last(), width, height);
        if c.2 == 0 || c.3 == 0 {
            rest
        } else {
            rest.push(c)
        }
    }
}

/// The rectangles to send: the changed ones where some are reported, else the frame.
pub open spec fn frame_rects(dirty: Option<Seq<DirtyRect>>, width: u16, height: u16) -> Seq<Rect> {
    match dirty {
        Some(list) => if list.len() > 0 {
            visible(list, width, height)
        } else {
            seq![(0, 0, width, height)]
        },
        None => seq![(0, 0, width, height)],
    }
}

pub open spec fn all_strips(rects: Seq<Rect>) -> Seq<Rect>
    decreases rects.len(),
{
    if rects.len() == 0 {
        Seq::empty()
    } else {
        let r = rects.last();
        all_strips(rects.drop_last()) + strips(r.0, r.1, r.2, r.3)
    }
}

pub open spec fn inside(r: Rect, width: u16, height: u16) -> bool {
    r.0 + r.2 <= width && r.1 + r.3 <= height
}

fn visible_rects(dirty: &Vec<DirtyRect>, width: u16, height: u16) -> (out: Vec<Rect>)
    ensures
        out@ == visible(dirty@, width, height),
        forall|i: int| 0 <= i < out@.len() ==> inside(#[trigger] out@[i], width, height),
{
    let mut out: Vec<Rect> = Vec::new();
    let mut i: usize = 0;
    assert(dirty@.take(0) =~= Seq::<DirtyRect>::empty());
    while i < dirty.len()
        invariant
            i <= dirty.len(),
            out@ == visible(dirty@.take(i as int), width, height),
            forall|k: int| 0 <= k < out@.len() ==> inside(#[trigger] out@[k], width, height),
        decreases dirty.len() - i,
    {
        let r: DirtyRect = dirty[i];
        let x: u16 = if r.x <= width as u32 {
            r.x as u16
        } else {
            width
        };
        let y: u16 = if r.y <= height as u32 {
            r.y as u16
        } else {
            height
        };
        let right: u16 = width - x;
        let below: u16 = height - y;
        let w: u16 = if r.w <= right as u32 {
            r.w as u16
        } else {
            right
        };
        let h: u16 = if r.h <= below as u32 {
            r.h as u16
        } else {
            below
        };
        proof {
            assert(dirty@.take(i + 1).drop_last() =~= dirty@.take(i as int));
            assert((x, y, w, h) == clipped(r, width, height));
        }
        if w != 0 && h != 0 {
            out.push((x, y, w, h));
        }
        i = i + 1;
    }
    assert(dirty@.take(i as int) =~= dirty@);
    out
}

/// The changed pixels in a list of areas, overlaps counted twice.
pub open spec fn area_sum(sizes: Seq<(u64, u64)>) -> nat
    decreases sizes.len(),
{
    if sizes.len() == 0 {
        0
    } else {
        area_sum(sizes.drop_last()) + sizes.last().0 as nat * sizes.last().1 as nat
    }
}

proof fn lemma_area_sum_grows(sizes: Seq<(u64, u64)>, k: int)
    requires
        0 <= k <= sizes.len(),
    ensures
        area_sum(sizes.take(k)) <= area_sum(sizes),
    decreases sizes.len() - k,
{
    if k < sizes.len() {
        lemma_area_sum_grows(sizes, k + 1);
        assert(sizes.take(k + 1).drop_last() =~= sizes.take(k));
        assert(sizes[k].0 as nat * sizes[k].1 as nat >= 0) by (nonlinear_arith);
    } else {
        assert(sizes.take(k) =~= sizes);
    }
}

pub fn changed_pixels(sizes: &Vec<(u64, u64)>) -> (n: u64)
    requires
        area_sum(sizes@) <= u64::MAX,
    ensures
        n == area_sum(sizes@),
{
    let mut n: u64 = 0;
    let mut i: usize = 0;
    assert(sizes@.take(0) =~= Seq::<(u64, u64)>::empty());
    while i < sizes.len()
        invariant
            i <= sizes.len(),
            n == area_sum(sizes@.take(i as int)),
            area_sum(sizes@) <= u64::MAX,
        decreases sizes.len() - i,
    {
        proof {
            lemma_area_sum_grows(sizes@, i + 1);
            assert(sizes@.take(i + 1).drop_last() =~= sizes@.take(i as int));
            assert(sizes@[i as int].0 as nat * sizes@[i as int].1 as nat >= 0)
                by (nonlinear_arith);
        }
        n = n + sizes[i].0 * sizes[i].1;
        i = i + 1;
    }
    assert(sizes@.take(i as int) =~= sizes@);
    n
}

/// At least `high` percent of the frame changed.
pub open spec fn is_large(changed_px: int, frame_px: int, high: int) -> bool {
    frame_px > 0 && changed_px * 100 >= frame_px * high
}

/// Less than half of `high` percent of the frame changed, or less than one percent where
/// that is more.
pub open spec fn is_quiet(changed_px: int, frame_px: int, high: int) -> bool {
    frame_px == 0 || changed_px * 100 < frame_px * crate::order::larger(high / 2, 1)
}

/// Whether a change asks for a keyframe, and whether the next one may: a large
/// change fires once, and only a quiet frame arms the trigger again.
pub open spec fn keyframe_edge(armed: bool, changed_px: int, frame_px: int, high: int) -> (
    bool,
    bool,
) {
    if armed && is_large(changed_px, frame_px, high) {
        (true, false)
    } else if is_quiet(changed_px, frame_px, high) {
        (false, true)
    } else {
        (false, armed)
    }
}

/// How long the client must have asked for no output before capture pauses.
pub const SUPPRESS_DEBOUNCE_MS: u64 = 1000;

/// How often a paused capture looks again.
pub const SUPPRESS_POLL_MS: u64 = 100;

/// The least time between two looks at the pointer.
pub const CURSOR_POLL_MS: u64 = 66;

/// What the capture loop does next.
#[derive(Debug)]
pub enum Turn {
    /// Hand this update to the client.
    Deliver(DisplayUpdate),
    /// Look at the pointer, and report what changed.
    PollCursor,
    /// Wait, then start over.
    Sleep(Duration),
    /// Wait for a frame, for at most the timeout where there is one.
    AwaitFrame { timeout: Option<Duration> },
}

/// What to ask of the encoder for a frame.
#[derive(Debug, Clone, Copy, PartialEq, Eq, Structural)]
pub struct FrameRequest {
    pub request_keyframe: bool,
    /// Output resumed after a pause, so the video moves back to the main connection.
    pub resumed: bool,
}

/// The state of a capture loop.
#[derive(Debug)]
pub struct CaptureLoop {
    pub pending: VecDeque<DisplayUpdate>,
    pub seeded: bool,
    pub force_full_frame: bool,
    pub last_cursor_poll: Option<Instant>,
    pub uses_gfx: bool,
    pub keyframe_on_change: KeyframeOnChange,
    pub kf_armed: bool,
    pub frame_interval: Duration,
    pub flush_frames: u32,
    pub flush_remaining: u32,
    pub last_frame: Vec<u8>,
    pub last_stride: usize,
    pub was_suppressed: bool,
    pub suppressed_since: Option<Instant>,
    pub first_egfx_frame_sent: bool,
}

/// [`CaptureLoop`] as a mathematical value.
#[verifier::ext_equal]
pub struct LoopState {
    pub pending: Seq<DisplayUpdate>,
    pub seeded: bool,
    pub force_full_frame: bool,
    pub last_cursor_poll: Option<Instant>,
    pub uses_gfx: bool,
    pub keyframe_on_change: KeyframeOnChange,
    pub kf_armed: bool,
    pub frame_interval: Duration,
    pub flush_frames: u32,
    pub flush_remaining: u32,
    pub last_frame: Seq<u8>,
    pub last_stride: usize,
    pub was_suppressed: bool,
    pub suppressed_since: Option<Instant>,
    pub first_egfx_frame_sent: bool,
}

impl View for CaptureLoop {
    type V = LoopState;

    open spec fn view(&self) -> LoopState {
        LoopState {
            pending: self.pending@,
            seeded: self.seeded,
            force_full_frame: self.force_full_frame,
            last_cursor_poll: self.last_cursor_poll,
            uses_gfx: self.uses_gfx,
            keyframe_on_change: self.keyframe_on_change,
            kf_armed: self.kf_armed,
            frame_interval: self.frame_interval,
            flush_frames: self.flush_frames,
            flush_remaining: self.flush_remaining,
            last_frame: self.last_frame@,
            last_stride: self.last_stride,
            was_suppressed: self.was_suppressed,
            suppressed_since: self.suppressed_since,
            first_egfx_frame_sent: self.first_egfx_frame_sent,
        }
    }
}

pub open spec fn millis(ms: u64) -> Duration {
    Duration { nanos: (ms * crate::time::NANOS_PER_MILLI) as u128 }
}

pub open spec fn poll_due(s: LoopState, now: Instant) -> bool {
    match s.last_cursor_poll {
        Some(t) => crate::time::since(now, t) >= millis(CURSOR_POLL_MS)@,
        None => true,
    }
}

/// A frame is waited for; while flush frames are due, no longer than one interval.
pub open spec fn await_turn(s: LoopState) -> Turn {
    Turn::AwaitFrame {
        timeout: if s.flush_remaining > 0 {
            Some(s.frame_interval)
        } else {
            None
        },
    }
}

/// Serving comes after the pointer: first what is pending; then a pause, once the
/// client has wanted no output for long enough; else a frame. `suppressed` tells
/// whether the client wants no output, where that is known at all.
pub open spec fn serve_step(s: LoopState, now: Instant, suppressed: Option<bool>) -> (
    Turn,
    LoopState,
) {
    if s.pending.len() > 0 {
        (Turn::Deliver(s.pending[0]), LoopState { pending: s.pending.drop_first(), ..s })
    } else if s.first_egfx_frame_sent && suppressed == Some(true) {
        let started = match s.suppressed_since {
            Some(t) => t,
            None => now,
        };
        let held = LoopState { suppressed_since: Some(started), ..s };
        if crate::time::since(now, started) >= millis(SUPPRESS_DEBOUNCE_MS)@ {
            (
                Turn::Sleep(millis(SUPPRESS_POLL_MS)),
                LoopState { was_suppressed: true, flush_remaining: 0, ..held },
            )
        } else {
            (await_turn(held), held)
        }
    } else if s.first_egfx_frame_sent && suppressed == Some(false) {
        let open = LoopState { suppressed_since: None, ..s };
        (await_turn(open), open)
    } else {
        (await_turn(s), s)
    }
}

pub open spec fn turn_step(
    s: LoopState,
    now: Instant,
    reactivate: Option<DesktopSize>,
    suppressed: Option<bool>,
) -> (Turn, LoopState) {
    match reactivate {
        Some(size) => (Turn::Deliver(DisplayUpdate::Resize(size)), s),
        None => if poll_due(s, now) {
            (Turn::PollCursor, LoopState { last_cursor_poll: Some(now), ..s })
        } else {
            serve_step(s, now, suppressed)
        },
    }
}

/// After a look at the pointer: its first update goes out and the others come
/// before everything pending.
pub open spec fn cursor_step(
    s: LoopState,
    updates: Seq<DisplayUpdate>,
    now: Instant,
    suppressed: Option<bool>,
) -> (Turn, LoopState) {
    if updates.len() > 0 {
        (
            Turn::Deliver(updates[0]),
            LoopState { pending: updates.drop_first() + s.pending, ..s },
        )
    } else {
        serve_step(s, now, suppressed)
    }
}

/// The share of the frame whose change counts as large.
pub open spec fn threshold(k: KeyframeOnChange, clicked: bool) -> u64 {
    if clicked {
        k.click_pct
    } else {
        k.change_pct
    }
}

pub open spec fn frame_step(
    s: LoopState,
    frame_px: int,
    changed_px: int,
    clicked: bool,
) -> (FrameRequest, LoopState) {
    let edge = if s.keyframe_on_change.enabled {
        keyframe_edge(
            s.kf_armed,
            changed_px,
            frame_px,
            threshold(s.keyframe_on_change, clicked) as int,
        )
    } else {
        (false, s.kf_armed)
    };
    (
        FrameRequest { request_keyframe: edge.0 || s.was_suppressed, resumed: s.was_suppressed },
        LoopState { kf_armed: edge.1, was_suppressed: false, ..s },
    )
}

/// A capture loop that has not begun.
pub open spec fn started(
    force_full_frame: bool,
    uses_gfx: bool,
    keyframe_on_change: KeyframeOnChange,
    frame_interval: Duration,
    flush_frames: u32,
) -> LoopState {
    LoopState {
        pending: Seq::empty(),
        seeded: false,
        force_full_frame,
        last_cursor_poll: None,
        uses_gfx,
        keyframe_on_change,
        kf_armed: true,
        frame_interval,
        flush_frames,
        flush_remaining: 0,
        last_frame: Seq::empty(),
        last_stride: 0,
        was_suppressed: false,
        suppressed_since: None,
        first_egfx_frame_sent: false,
    }
}

/// After a wait without a frame: whether the last frame is sent once more.
pub open spec fn timeout_step(s: LoopState) -> (bool, LoopState) {
    (
        s.uses_gfx && s.last_frame.len() > 0,
        LoopState { flush_remaining: (s.flush_remaining - 1) as u32, ..s },
    )
}

/// After the encoder took a frame.
pub open spec fn submitted(s: LoopState, src: Seq<u8>, stride: usize) -> LoopState {
    LoopState {
        seeded: true,
        first_egfx_frame_sent: true,
        last_frame: src,
        last_stride: stride,
        flush_remaining: s.flush_frames,
        ..s
    }
}

/// The parts of a frame that go out as bitmap updates.
pub open spec fn frame_parts(
    s: LoopState,
    dirty: Option<Seq<DirtyRect>>,
    width: u16,
    height: u16,
) -> Seq<Rect> {
    all_strips(
        frame_rects(
            if s.seeded && !s.force_full_frame {
                dirty
            } else {
                None
            },
            width,
            height,
        ),
    )
}

pub open spec fn rects_of(dirty: Option<&Vec<DirtyRect>>) -> Option<Seq<DirtyRect>> {
    match dirty {
        Some(list) => Some(list@),
        None => None,
    }
}

/// A bitmap frame was queued: its parts follow what was pending.
pub open spec fn queued_frame(
    before: LoopState,
    after: LoopState,
    src: Seq<u8>,
    stride: int,
    parts: Seq<Rect>,
) -> bool {
    let n = before.pending.len() as int;
    &&& after == (LoopState { seeded: true, pending: after.pending, ..before })
    &&& after.pending.len() == n + parts.len()
    &&& after.pending.take(n) == before.pending
    &&& forall|k: int|
        0 <= k < parts.len() ==> {
            let u = #[trigger] after.pending[n + k];
            u is Bitmap && shows(u->Bitmap_0, src, stride, parts[k])
        }
}

impl CaptureLoop {
    pub fn start(
        force_full_frame: bool,
        uses_gfx: bool,
        keyframe_on_change: KeyframeOnChange,
        frame_interval: Duration,
        flush_frames: u32,
    ) -> (s: Self)
        ensures
            s@ == started(
                force_full_frame,
                uses_gfx,
                keyframe_on_change,
                frame_interval,
                flush_frames,
            ),
    {
        CaptureLoop {
            pending: VecDeque::new(),
            seeded: false,
            force_full_frame,
            last_cursor_poll: None,
            uses_gfx,
            keyframe_on_change,
            kf_armed: true,
            frame_interval,
            flush_frames,
            flush_remaining: 0,
            last_frame: Vec::new(),
            last_stride: 0,
            was_suppressed: false,
            suppressed_since: None,
            first_egfx_frame_sent: false,
        }
    }

    /// Starts a round of the loop. A size that the video pipeline asks the client to
    /// adopt goes out before anything else.
    pub fn turn(
        &mut self,
        now: Instant,
        reactivate: Option<DesktopSize>,
        suppressed: Option<bool>,
    ) -> (t: Turn)
        ensures
            (t, final(self)@) == turn_step(old(self)@, now, reactivate, suppressed),
    {
        if let Some(size) = reactivate {
            return Turn::Deliver(DisplayUpdate::Resize(size));
        }
        let interval: Duration = Duration::from_millis(CURSOR_POLL_MS);
        let due: bool = match self.last_cursor_poll {
            Some(t) => now.saturating_duration_since(t).nanos >= interval.nanos,
            None => true,
        };
        if due {
            self.last_cursor_poll = Some(now);
            return Turn::PollCursor;
        }
        self.serve(now, suppressed)
    }

    /// Goes on with a round after the pointer was looked at.
    pub fn on_cursor(
        &mut self,
        updates: Vec<DisplayUpdate>,
        now: Instant,
        suppressed: Option<bool>,
    ) -> (t: Turn)
        ensures
            (t, final(self)@) == cursor_step(old(self)@, updates@, now, suppressed),
    {
        let ghost all = updates@;
        let ghost queued = self.pending@;
        let mut updates: Vec<DisplayUpdate> = updates;
        while updates.len() > 1
            invariant
                updates@.len() <= all.len(),
                all.len() == 0 ==> self.pending@ == queued,
                all.len() > 0 ==> updates@.len() >= 1,
                updates@ == all.take(updates@.len() as int),
                self.pending@ == all.skip(updates@.len() as int) + queued,
                self@ == (LoopState { pending: self.pending@, ..old(self)@ }),
            decreases updates.len(),
        {
            let ghost n = (updates@.len() - 1) as int;
            if let Some(u) = updates.pop() {
                self.pending.push_front(u);
                proof {
                    assert(updates@ =~= all.take(n));
                    assert(all.skip(n) =~= seq![all[n]] + all.skip(n + 1));
                    assert(self.pending@ =~= all.skip(n) + queued);
                }
            }
        }
        match updates.pop() {
            Some(first) => {
                assert(self.pending@ =~= all.drop_first() + queued);
                Turn::Deliver(first)
            },
            None => {
                assert(self.pending@ =~= queued);
                self.serve(now, suppressed)
            },
        }
    }

    fn serve(&mut self, now: Instant, suppressed: Option<bool>) -> (t: Turn)
        ensures
            (t, final(self)@) == serve_step(old(self)@, now, suppressed),
    {
        if let Some(update) = self.pending.pop_front() {
            assert(self.pending@ =~= old(self).pending@.drop_first());
            return Turn::Deliver(update);
        }
        if self.first_egfx_frame_sent {
            if let Some(on) = suppressed {
                if on {
                    let started: Instant = match self.suppressed_since {
                        Some(t) => t,
                        None => now,
                    };
                    self.suppressed_since = Some(started);
                    let held: Duration = now.saturating_duration_since(started);
                    if held.nanos >= Duration::from_millis(SUPPRESS_DEBOUNCE_MS).nanos {
                        self.was_suppressed = true;
                        self.flush_remaining = 0;
                        return Turn::Sleep(Duration::from_millis(SUPPRESS_POLL_MS));
                    }
                } else {
                    self.suppressed_since = None;
                }
            }
        }
        let timeout: Option<Duration> = if self.flush_remaining > 0 {
            Some(self.frame_interval)
        } else {
            None
        };
        Turn::AwaitFrame { timeout }
    }

    /// No frame came in time: one flush frame fewer is due. Says whether the last
    /// frame is to be sent once more.
    pub fn on_timeout(&mut self) -> (resend: bool)
        requires
            old(self).flush_remaining > 0,
        ensures
            (resend, final(self)@) == timeout_step(old(self)@),
    {
        self.flush_remaining = self.flush_remaining - 1;
        self.uses_gfx && self.last_frame.len() > 0
    }

    /// What to ask of the encoder for a frame in which `changed_px` pixels changed.
    pub fn on_frame(&mut self, width: u16, height: u16, changed_px: u64, clicked: bool) -> (r:
        FrameRequest)
        requires
            old(self).keyframe_on_change.enabled ==> changed_px * 100 <= u64::MAX && (width
                * height) * threshold(old(self).keyframe_on_change, clicked) <= u64::MAX,
        ensures
            (r, final(self)@) == frame_step(
                old(self)@,
                width * height,
                changed_px as int,
                clicked,
            ),
    {
        let mut big_change: bool = false;
        if self.keyframe_on_change.enabled {
            assert(width * height <= 65535 * 65535) by (nonlinear_arith)
                requires
                    0 <= width <= 65535,
                    0 <= height <= 65535,
            ;
            let frame_px: u64 = width as u64 * height as u64;
            let high: u64 = if clicked {
                self.keyframe_on_change.click_pct
            } else {
                self.keyframe_on_change.change_pct
            };
            let low: u64 = if high / 2 >= 1 {
                high / 2
            } else {
                1
            };
            assert(frame_px * low <= u64::MAX) by (nonlinear_arith)
                requires
                    frame_px * high <= u64::MAX,
                    low <= high || low == 1,
                    0 <= frame_px <= 65535 * 65535,
            ;
            let is_big: bool = frame_px > 0 && changed_px * 100 >= frame_px * high;
            let is_quiet: bool = frame_px == 0 || changed_px * 100 < frame_px * low;
            if self.kf_armed && is_big {
                self.kf_armed = false;
                big_change = true;
            } else if is_quiet {
                self.kf_armed = true;
            }
        }
        let resumed: bool = self.was_suppressed;
        self.was_suppressed = false;
        FrameRequest { request_keyframe: big_change || resumed, resumed }
    }

    /// The encoder took the frame: it is kept for the flush frames, which start anew.
    pub fn on_submitted(&mut self, src: &[u8], stride: usize)
        ensures
            final(self)@ == submitted(old(self)@, src@, stride),
    {
        self.seeded = true;
        self.first_egfx_frame_sent = true;
        let mut copy: Vec<u8> = Vec::new();
        copy.extend_from_slice(src);
        assert(copy@ =~= src@);
        self.last_frame = copy;
        self.last_stride = stride;
        self.flush_remaining = self.flush_frames;
    }

    /// Queues a frame as bitmap updates: the changed parts of it, or all of it where
    /// nothing was sent before, the picture is scaled, or no change is reported.
    pub fn on_bitmap_frame(
        &mut self,
        src: &[u8],
        stride: usize,
        width: u16,
        height: u16,
        dirty: Option<&Vec<DirtyRect>>,
    )
        requires
            rect_in_frame(src@.len() as int, stride as int, 0, 0, width as int, height as int),
        ensures
            queued_frame(
                old(self)@,
                final(self)@,
                src@,
                stride as int,
                frame_parts(old(self)@, rects_of(dirty), width, height),
            ),
    {
        let use_dirty: bool = self.seeded && !self.force_full_frame;
        let ghost reported: Option<Seq<DirtyRect>> = if use_dirty {
            match dirty {
                Some(list) => Some(list@),
                None => None,
            }
        } else {
            None
        };
        let mut rects: Vec<Rect> = Vec::new();
        let mut whole: bool = true;
        if use_dirty {
            if let Some(list) = dirty {
                if list.len() > 0 {
                    rects = visible_rects(list, width, height);
                    whole = false;
                }
            }
        }
        if whole {
            rects.push((0, 0, width, height));
        }
        assert(rects@ =~= frame_rects(reported, width, height));
        let ghost queued = self.pending@;
        let ghost n = queued.len() as int;
        let mut i: usize = 0;
        assert(rects@.take(0) =~= Seq::<Rect>::empty());
        while i < rects.len()
            invariant
                i <= rects.len(),
                n == queued.len(),
                rect_in_frame(src@.len() as int, stride as int, 0, 0, width as int, height as int),
                forall|k: int| 0 <= k < rects@.len() ==> inside(#[trigger] rects@[k], width, height),
                self@ == (LoopState { pending: self.pending@, ..old(self)@ }),
                self.pending@.len() == n + all_strips(rects@.take(i as int)).len(),
                self.pending@.take(n) == queued,
                forall|k: int|
                    0 <= k < all_strips(rects@.take(i as int)).len() ==> {
                        let u = #[trigger] self.pending@[n + k];
                        u is Bitmap && shows(
                            u->Bitmap_0,
                            src@,
                            stride as int,
                            all_strips(rects@.take(i as int))[k],
                        )
                    },
            decreases rects.len() - i,
        {
            let r: Rect = rects[i];
            assert(inside(rects@[i as int], width, height));
            let ghost done = all_strips(rects@.take(i as int));
            self.push_strips(src, stride, r, Ghost(width), Ghost(height));
            proof {
                assert(rects@.take(i + 1).drop_last() =~= rects@.take(i as int));
                let parts = all_strips(rects@.take(i + 1));
                assert(parts == done + strips(r.0, r.1, r.2, r.3));
                assert forall|k: int| 0 <= k < parts.len() implies {
                    let u = #[trigger] self.pending@[n + k];
                    u is Bitmap && shows(u->Bitmap_0, src@, stride as int, parts[k])
                } by {
                    if k >= done.len() {
                        let j = k - done.len();
                        assert(parts[k] == strips(r.0, r.1, r.2, r.3)[j]);
                        assert(self.pending@[(n + done.len()) + j] == self.pending@[n + k]);
                    }
                }
                assert(self.pending@.take(n) =~= queued);
            }
            i = i + 1;
        }
        assert(rects@.take(i as int) =~= rects@);
        self.seeded = true;
    }

    fn push_strips(
        &mut self,
        src: &[u8],
        stride: usize,
        r: Rect,
        Ghost(width): Ghost<u16>,
        Ghost(height): Ghost<u16>,
    )
        requires
            rect_in_frame(src@.len() as int, stride as int, 0, 0, width as int, height as int),
            inside(r, width, height),
        ensures
            ({
                let parts = strips(r.0, r.1, r.2, r.3);
                let n = old(self).pending@.len() as int;
                &&& final(self)@ == (LoopState { pending: final(self).pending@, ..old(self)@ })
                &&& final(self).pending@.len() == n + parts.len()
                &&& forall|k: int| 0 <= k < n ==> final(self).pending@[k] == old(self).pending@[k]
                &&& forall|k: int|
                    0 <= k < parts.len() ==> {
                        let u = #[trigger] final(self).pending@[n + k];
                        u is Bitmap && shows(u->Bitmap_0, src@, stride as int, parts[k])
                    }
            }),
    {
        proof {
            if r.2 * r.3 > MAX_BITMAP_UPDATE_PIXELS {
                lemma_rows(r.2, r.3);
                let rows = strip_rows(r.2 as int);
                assert(((r.3 - 1) / rows) * rows <= r.3 - 1) by (nonlinear_arith)
                    requires
                        rows >= 14,
                ;
            }
        }
        let parts: Vec<Rect> = split_strips(r.0, r.1, r.2, r.3);
        let ghost n = self.pending@.len() as int;
        let mut j: usize = 0;
        while j < parts.len()
            invariant
                j <= parts.len(),
                n == old(self).pending@.len(),
                parts@ == strips(r.0, r.1, r.2, r.3),
                inside(r, width, height),
                rect_in_frame(src@.len() as int, stride as int, 0, 0, width as int, height as int),
                self@ == (LoopState { pending: self.pending@, ..old(self)@ }),
                self.pending@.len() == n + j,
                forall|k: int| 0 <= k < n ==> self.pending@[k] == old(self).pending@[k],
                forall|k: int|
                    0 <= k < j ==> {
                        let u = #[trigger] self.pending@[n + k];
                        u is Bitmap && shows(u->Bitmap_0, src@, stride as int, parts@[k])
                    },
            decreases parts.len() - j,
        {
            let p: Rect = parts[j];
            proof {
                strips_lie_within(r.0, r.1, r.2, r.3, j as int);
                assert((p.1 + p.3 - 1) * stride + 4 * p.0 + 4 * p.2 <= src@.len())
                    by (nonlinear_arith)
                    requires
                        (height - 1) * stride + 4 * width <= src@.len(),
                        p.1 + p.3 <= height,
                        p.0 + p.2 <= width,
                        stride >= 0,
                ;
            }
            if let Some(update) = rect_update(src, stride, p.0, p.1, p.2, p.3) {
                self.pending.push_back(DisplayUpdate::Bitmap(update));
            }
            j = j + 1;
        }
    }
}

/// Every strip has pixels, no more than one update holds, the rectangle's full width,
/// and lies within the rectangle.
pub proof fn strips_lie_within(x: u16, y: u16, w: u16, h: u16, k: int)
    requires
        y + h <= 0x1_0000,
        0 <= k < strips(x, y, w, h).len(),
    ensures
        ({
            let s = strips(x, y, w, h)[k];
            &&& s.0 == x && s.2 == w
            &&& s.2 > 0 && s.3 > 0
            &&& s.2 * s.3 <= MAX_BITMAP_UPDATE_PIXELS
            &&& y <= s.1 && s.1 + s.3 <= y + h
        }),
{
    if w * h > MAX_BITMAP_UPDATE_PIXELS {
        lemma_rows(w, h);
        let rows = strip_rows(w as int);
        let n = (h + rows - 1) / rows;
        assert(k * rows < h && k * rows >= 0) by (nonlinear_arith)
            requires
                0 <= k < n,
                n == (h + rows - 1) / rows,
                rows >= 14,
        ;
        let s = strips(x, y, w, h)[k];
        assert(s.1 == y + k * rows);
        assert(w * s.3 <= rows * w) by (nonlinear_arith)
            requires
                s.3 <= rows,
                w >= 0,
        ;
    }
}

/// The strips tile the rectangle: the first starts at its top, each other one where
/// the one before ends, and the last ends at its bottom.
pub proof fn strips_tile_the_rectangle(x: u16, y: u16, w: u16, h: u16)
    requires
        y + h <= 0x1_0000,
        w > 0,
        h > 0,
    ensures
        ({
            let s = strips(x, y, w, h);
            &&& s.len() > 0
            &&& s[0].1 == y
            &&& forall|k: int|
                0 <= k < s.len() - 1 ==> s[k + 1].1 == #[trigger] s[k].1 + s[k].3
            &&& s.last().1 + s.last().3 == y + h
        }),
{
    if w * h > MAX_BITMAP_UPDATE_PIXELS {
        lemma_rows(w, h);
        let rows = strip_rows(w as int);
        let n = (h + rows - 1) / rows;
        assert(n >= 1 && (n - 1) * rows < h && h <= n * rows) by (nonlinear_arith)
            requires
                n == (h + rows - 1) / rows,
                rows >= 14,
                h >= 1,
        ;
        let s = strips(x, y, w, h);
        assert forall|k: int| 0 <= k < s.len() - 1 implies s[k + 1].1 == #[trigger] s[k].1
            + s[k].3 by {
            assert((k + 1) * rows == k * rows + rows) by (nonlinear_arith);
            assert((k + 1) * rows <= (n - 1) * rows) by (nonlinear_arith)
                requires
                    k + 1 <= n - 1,
                    rows >= 14,
            ;
            assert(k * rows >= 0) by (nonlinear_arith)
                requires
                    k >= 0,
                    rows >= 14,
            ;
        }
        assert(n * rows == (n - 1) * rows + rows) by (nonlinear_arith);
        assert((n - 1) * rows >= 0) by (nonlinear_arith)
            requires
                n >= 1,
                rows >= 14,
        ;
    }
}

/// A stored size is read back as it was stored.
pub proof fn size_survives_packing(width: u16, height: u16)
    ensures
        unpacked(packed(width, height)) == (width, height),
{
}

/// A size, once served, is served on: asking for it again changes nothing.
pub proof fn serving_is_stable(auto_size: bool, current: DesktopSize, client: DesktopSize)
    ensures
        served_size(auto_size, served_size(auto_size, current, client), client) == served_size(
            auto_size,
            current,
            client,
        ),
        !auto_size ==> served_size(auto_size, current, client) == current,
{
}

/// A large change asks for one keyframe: once the trigger has fired, it stays silent
/// until a quiet frame has armed it again.
pub proof fn keyframe_trigger_fires_once(
    armed: bool,
    changed_px: int,
    frame_px: int,
    high: int,
)
    ensures
        keyframe_edge(armed, changed_px, frame_px, high).0 ==> armed && !keyframe_edge(
            armed,
            changed_px,
            frame_px,
            high,
        ).1,
        !keyframe_edge(false, changed_px, frame_px, high).0,
        keyframe_edge(false, changed_px, frame_px, high).1 ==> is_quiet(changed_px, frame_px, high),
{
}

/// A frame of a stream: its pixels, how many of them changed, and whether it came shortly
/// after a click.
pub struct StreamFrame {
    pub frame_px: int,
    pub changed_px: int,
    pub clicked: bool,
}

pub open spec fn large_in(k: KeyframeOnChange, f: StreamFrame) -> bool {
    is_large(f.changed_px, f.frame_px, threshold(k, f.clicked) as int)
}

pub open spec fn quiet_in(k: KeyframeOnChange, f: StreamFrame) -> bool {
    is_quiet(f.changed_px, f.frame_px, threshold(k, f.clicked) as int)
}

/// A stream of frames from the start on. `states` holds the loop before each of them;
/// what the loop does between two frames leaves the trigger alone, and output is not
/// being resumed.
pub open spec fn is_stream(
    k: KeyframeOnChange,
    frames: Seq<StreamFrame>,
    states: Seq<LoopState>,
) -> bool {
    &&& k.enabled
    &&& states.len() == frames.len()
    &&& states.len() > 0 ==> states[0].kf_armed
    &&& forall|i: int|
        0 <= i < states.len() ==> (#[trigger] states[i]).keyframe_on_change == k
            && !states[i].was_suppressed
    &&& forall|i: int|
        0 <= i < states.len() - 1 ==> states[i + 1].kf_armed == frame_of(
            #[trigger] states[i],
            frames[i],
        ).1.kf_armed
    &&& forall|i: int|
        0 <= i < frames.len() ==> (#[trigger] frames[i]).frame_px >= 0 && frames[i].changed_px >= 0
            && threshold(k, frames[i].clicked) >= 1
}

pub open spec fn frame_of(s: LoopState, f: StreamFrame) -> (FrameRequest, LoopState) {
    frame_step(s, f.frame_px, f.changed_px, f.clicked)
}

/// Every large change before frame `i` was followed by a quiet frame before it.
pub open spec fn settled(k: KeyframeOnChange, frames: Seq<StreamFrame>, i: int) -> bool {
    forall|j: int|
        0 <= j < i && large_in(k, #[trigger] frames[j]) ==> quiet_between(k, frames, j, i)
}

pub open spec fn quiet_between(
    k: KeyframeOnChange,
    frames: Seq<StreamFrame>,
    i: int,
    j: int,
) -> bool {
    exists|m: int| i < m < j && quiet_in(k, #[trigger] frames[m])
}

proof fn lemma_large_is_not_quiet(changed_px: int, frame_px: int, high: int)
    requires
        high >= 1,
        frame_px >= 0,
        is_large(changed_px, frame_px, high),
    ensures
        !is_quiet(changed_px, frame_px, high),
{
    let low = crate::order::larger(high / 2, 1);
    assert(frame_px * low <= frame_px * high) by (nonlinear_arith)
        requires
            low <= high,
            frame_px >= 0,
    ;
}

proof fn lemma_armed_when_settled(
    k: KeyframeOnChange,
    frames: Seq<StreamFrame>,
    states: Seq<LoopState>,
    i: int,
)
    requires
        is_stream(k, frames, states),
        0 <= i < frames.len(),
    ensures
        states[i].kf_armed <==> settled(k, frames, i),
    decreases i,
{
    if i > 0 {
        let p = i - 1;
        lemma_armed_when_settled(k, frames, states, p);
        let f = frames[p];
        if large_in(k, f) {
            lemma_large_is_not_quiet(f.changed_px, f.frame_px, threshold(k, f.clicked) as int);
        }
        assert(states[p + 1].kf_armed == frame_of(states[p], f).1.kf_armed);
        if quiet_in(k, f) {
            assert forall|j: int| 0 <= j < i && large_in(k, #[trigger] frames[j]) implies
                quiet_between(k, frames, j, i) by {
                assert(quiet_in(k, frames[p]));
            }
        } else if states[p].kf_armed && !large_in(k, f) {
            assert forall|j: int| 0 <= j < i && large_in(k, #[trigger] frames[j]) implies
                quiet_between(k, frames, j, i) by {
                assert(quiet_between(k, frames, j, p));
                let m = choose|m: int| j < m < p && quiet_in(k, #[trigger] frames[m]);
                assert(quiet_in(k, frames[m]));
            }
        } else if large_in(k, f) && states[p].kf_armed {
            assert(!quiet_between(k, frames, p, i));
        } else {
            let j = choose|j: int|
                0 <= j < p && large_in(k, #[trigger] frames[j]) && !quiet_between(k, frames, j, p);
            assert(!quiet_between(k, frames, j, i)) by {
                if quiet_between(k, frames, j, i) {
                    let m = choose|m: int| j < m < i && quiet_in(k, #[trigger] frames[m]);
                    assert(m != p);
                    assert(quiet_in(k, frames[m]));
                }
            }
        }
    }
}

/// Over a stream of frames, a keyframe is asked for exactly on the first large change
/// since the stream began or since a quiet frame; so between two that are asked for lies a
/// quiet frame.
pub proof fn keyframes_come_with_the_first_large_change(
    k: KeyframeOnChange,
    frames: Seq<StreamFrame>,
    states: Seq<LoopState>,
    i: int,
)
    requires
        is_stream(k, frames, states),
        0 <= i < frames.len(),
    ensures
        frame_of(states[i], frames[i]).0.request_keyframe <==> large_in(k, frames[i]) && settled(
            k,
            frames,
            i,
        ),
        forall|j: int|
            0 <= j < i && frame_of(#[trigger] states[j], frames[j]).0.request_keyframe && frame_of(
                states[i],
                frames[i],
            ).0.request_keyframe ==> quiet_between(k, frames, j, i),
{
    lemma_armed_when_settled(k, frames, states, i);
    assert forall|j: int|
        0 <= j < i && frame_of(#[trigger] states[j], frames[j]).0.request_keyframe && frame_of(
            states[i],
            frames[i],
        ).0.request_keyframe implies quiet_between(k, frames, j, i) by {
        lemma_armed_when_settled(k, frames, states, j);
        assert(large_in(k, frames[j]));
    }
}

/// A click is within the window from its own moment until the window has passed, and
/// without a click nothing is.
pub proof fn a_click_counts_for_its_window(click: Duration, later: Duration, window: Duration)
    requires
        click@ <= later@,
        later@ / crate::time::NANOS_PER_MILLI as nat <= u64::MAX,
        window@ / crate::time::NANOS_PER_MILLI as nat <= u64::MAX,
    ensures
        later@ / crate::time::NANOS_PER_MILLI as nat - click@
            / crate::time::NANOS_PER_MILLI as nat <= window@
            / crate::time::NANOS_PER_MILLI as nat ==> clicked_within(
            click_mark(click),
            later,
            window,
        ),
        !clicked_within(0, later, window),
{
}

/// The first frame after a pause asks for a keyframe.
pub proof fn resuming_asks_for_a_keyframe(
    s: LoopState,
    frame_px: int,
    changed_px: int,
    clicked: bool,
)
    requires
        s.was_suppressed,
    ensures
        frame_step(s, frame_px, changed_px, clicked).0.request_keyframe,
        frame_step(s, frame_px, changed_px, clicked).0.resumed,
        !frame_step(s, frame_px, changed_px, clicked).1.was_suppressed,
{
}

/// A display that stands in for the screen: it shows one static picture, or plays a
/// given row of updates and ends.
#[derive(Debug)]
pub struct StubUpdates {
    pub queue: VecDeque<DisplayUpdate>,
    pub end_on_drain: bool,
}

#[derive(Debug, Clone, Copy, PartialEq, Eq, Structural)]
pub enum StubError {
    ZeroWidth,
    ZeroHeight,
}

/// What a stand-in display has next.
#[derive(Debug)]
pub enum StubNext {
    Update(DisplayUpdate),
    /// No more updates will come.
    End,
    /// Nothing changes any more, but the display stays.
    Idle,
}

pub open spec fn stub_byte(i: int) -> u8 {
    if i % 4 == 0 {
        0xFF
    } else if i % 4 == 1 {
        0x10
    } else if i % 4 == 2 {
        0x80
    } else {
        0x90
    }
}

impl StubUpdates {
    pub fn new(width: u16, height: u16) -> (r: Result<Self, StubError>)
        requires
            4 * width * height <= usize::MAX,
        ensures
            width == 0 ==> r == Err::<Self, StubError>(StubError::ZeroWidth),
            width != 0 && height == 0 ==> r == Err::<Self, StubError>(StubError::ZeroHeight),
            width != 0 && height != 0 ==> {
                &&& r matches Ok(s)
                &&& !s.end_on_drain
                &&& s.queue@.len() == 1
                &&& s.queue@[0] matches DisplayUpdate::Bitmap(u)
                &&& u.x == 0 && u.y == 0 && u.width == width && u.height == height
                &&& u.format == PixelFormat::ARgb32
                &&& u.stride == 4 * width
                &&& u.data@ == Seq::new((4 * width * height) as nat, |i: int| stub_byte(i))
            },
    {
        if width == 0 {
            return Err(StubError::ZeroWidth);
        }
        if height == 0 {
            return Err(StubError::ZeroHeight);
        }
        assert(width * height <= 4 * width * height) by (nonlinear_arith)
            requires
                width >= 0,
                height >= 0,
        ;
        assert(4 * (width * height) == 4 * width * height) by (nonlinear_arith);
        let pixels: usize = width as usize * height as usize;
        let mut data: Vec<u8> = Vec::new();
        let mut i: usize = 0;
        while i < pixels
            invariant
                i <= pixels,
                data@.len() == 4 * i,
                forall|k: int| 0 <= k < data@.len() ==> #[trigger] data@[k] == stub_byte(k),
            decreases pixels - i,
        {
            data.push(0xFF);
            data.push(0x10);
            data.push(0x80);
            data.push(0x90);
            i = i + 1;
        }
        assert(data@ =~= Seq::new((4 * width * height) as nat, |k: int| stub_byte(k)));
        let mut queue: VecDeque<DisplayUpdate> = VecDeque::new();
        queue.push_back(
            DisplayUpdate::Bitmap(
                BitmapUpdate {
                    x: 0,
                    y: 0,
                    width,
                    height,
                    format: PixelFormat::ARgb32,
                    data,
                    stride: width as usize * 4,
                },
            ),
        );
        Ok(StubUpdates { queue, end_on_drain: false })
    }

    pub fn with_updates(updates: VecDeque<DisplayUpdate>) -> (s: Self)
        ensures
            s.queue == updates,
            s.end_on_drain,
    {
        StubUpdates { queue: updates, end_on_drain: true }
    }

    pub fn next_update(&mut self) -> (r: StubNext)
        ensures
            final(self).end_on_drain == old(self).end_on_drain,
            old(self).queue@.len() > 0 ==> r == StubNext::Update(old(self).queue@[0])
                && final(self).queue@ == old(self).queue@.drop_first(),
            old(self).queue@.len() == 0 ==> final(self).queue@ == old(self).queue@ && r == (if old(
                self,
            ).end_on_drain {
                StubNext::End
            } else {
                StubNext::Idle
            }),
    {
        match self.queue.pop_front() {
            Some(u) => {
                assert(self.queue@ =~= old(self).queue@.drop_first());
                StubNext::Update(u)
            },
            None => if self.end_on_drain {
                StubNext::End
            } else {
                StubNext::Idle
            },
        }
    }
}

/// The strips of a rectangle hold exactly its pixels.
proof fn lemma_strips_hold(r: Rect, px: int, py: int)
    requires
        r.1 + r.3 <= 0x1_0000,
    ensures
        (exists|k: int|
            0 <= k < strips(r.0, r.1, r.2, r.3).len() && holds(
                #[trigger] strips(r.0, r.1, r.2, r.3)[k],
                px,
                py,
            )) <==> holds(r, px, py),
{
    let (x, y, w, h) = r;
    let s = strips(x, y, w, h);
    if holds(r, px, py) {
        if w * h > MAX_BITMAP_UPDATE_PIXELS {
            lemma_rows(w, h);
            let rows = strip_rows(w as int);
            let n = (h + rows - 1) / rows;
            let k = (py - y) / rows;
            let d = py - y;
            assert(0 <= k < n && k * rows <= d < k * rows + rows && 0 <= k * rows) by (nonlinear_arith)
                requires
                    k == d / rows,
                    0 <= d < h,
                    n == (h + rows - 1) / rows,
                    rows >= 14,
            ;
            assert(s[k] == strip(x, y, w, h, rows, k * rows));
            assert(holds(s[k], px, py));
        } else {
            assert(holds(s[0], px, py));
        }
    }
    if exists|k: int| 0 <= k < s.len() && holds(#[trigger] s[k], px, py) {
        let k = choose|k: int| 0 <= k < s.len() && holds(#[trigger] s[k], px, py);
        strips_lie_within(x, y, w, h, k);
    }
}

spec fn holds(r: Rect, px: int, py: int) -> bool {
    r.0 <= px < r.0 + r.2 && r.1 <= py < r.1 + r.3
}

spec fn some_holds(rects: Seq<Rect>, px: int, py: int) -> bool {
    exists|k: int| 0 <= k < rects.len() && holds(#[trigger] rects[k], px, py)
}

proof fn lemma_holds_joined(a: Seq<Rect>, b: Seq<Rect>, px: int, py: int)
    ensures
        some_holds(a + b, px, py) <==> some_holds(a, px, py) || some_holds(b, px, py),
{
    let c = a + b;
    if some_holds(c, px, py) {
        let k = choose|k: int| 0 <= k < c.len() && holds(#[trigger] c[k], px, py);
        if k < a.len() {
            assert(holds(a[k], px, py));
        } else {
            assert(holds(b[k - a.len()], px, py));
        }
    }
    if some_holds(a, px, py) {
        let k = choose|k: int| 0 <= k < a.len() && holds(#[trigger] a[k], px, py);
        assert(holds(c[k], px, py));
    }
    if some_holds(b, px, py) {
        let k = choose|k: int| 0 <= k < b.len() && holds(#[trigger] b[k], px, py);
        assert(holds(c[a.len() + k], px, py));
    }
}

proof fn lemma_all_strips_hold(rects: Seq<Rect>, px: int, py: int)
    requires
        forall|k: int| 0 <= k < rects.len() ==> (#[trigger] rects[k]).1 + rects[k].3 <= 0x1_0000,
    ensures
        some_holds(all_strips(rects), px, py) <==> some_holds(rects, px, py),
    decreases rects.len(),
{
    if rects.len() > 0 {
        let front = rects.drop_last();
        let r = rects.last();
        assert forall|k: int| 0 <= k < front.len() implies (#[trigger] front[k]).1 + front[k].3
            <= 0x1_0000 by {
            assert(front[k] == rects[k]);
        }
        lemma_all_strips_hold(front, px, py);
        lemma_strips_hold(r, px, py);
        lemma_holds_joined(all_strips(front), strips(r.0, r.1, r.2, r.3), px, py);
        lemma_holds_joined(front, seq![r], px, py);
        assert(front + seq![r] =~= rects);
        assert(some_holds(seq![r], px, py) <==> holds(r, px, py)) by {
            assert(seq![r][0] == r);
        }
    }
}

spec fn dirty_holds(r: DirtyRect, px: int, py: int) -> bool {
    r.x <= px < r.x + r.w && r.y <= py < r.y + r.h
}

proof fn lemma_visible_holds(dirty: Seq<DirtyRect>, width: u16, height: u16, px: int, py: int)
    requires
        0 <= px < width,
        0 <= py < height,
    ensures
        some_holds(visible(dirty, width, height), px, py) <==> exists|j: int|
            0 <= j < dirty.len() && dirty_holds(#[trigger] dirty[j], px, py),
        forall|k: int|
            0 <= k < visible(dirty, width, height).len() ==> inside(
                #[trigger] visible(dirty, width, height)[k],
                width,
                height,
            ),
    decreases dirty.len(),
{
    if dirty.len() > 0 {
        let front = dirty.drop_last();
        let r = dirty.last();
        let c = clipped(r, width, height);
        let rest = visible(front, width, height);
        lemma_visible_holds(front, width, height, px, py);
        lemma_holds_joined(rest, seq![c], px, py);
        assert(rest + seq![c] =~= rest.push(c));
        assert(some_holds(seq![c], px, py) <==> holds(c, px, py)) by {
            assert(seq![c][0] == c);
        }
        assert(holds(c, px, py) <==> dirty_holds(r, px, py));
        if dirty_holds(r, px, py) {
            assert(dirty_holds(dirty[dirty.len() - 1], px, py));
        }
        if exists|j: int| 0 <= j < front.len() && dirty_holds(#[trigger] front[j], px, py) {
            let j = choose|j: int| 0 <= j < front.len() && dirty_holds(#[trigger] front[j], px, py);
            assert(dirty_holds(dirty[j], px, py));
        }
        if exists|j: int| 0 <= j < dirty.len() && dirty_holds(#[trigger] dirty[j], px, py) {
            let j = choose|j: int| 0 <= j < dirty.len() && dirty_holds(#[trigger] dirty[j], px, py);
            if j < front.len() {
                assert(dirty_holds(front[j], px, py));
            }
        }
    }
}

/// The rectangles that are sent hold exactly the changed pixels of the frame, where changes
/// are reported.
pub proof fn changed_pixels_are_sent(
    dirty: Seq<DirtyRect>,
    width: u16,
    height: u16,
    px: int,
    py: int,
)
    requires
        dirty.len() > 0,
        0 <= px < width,
        0 <= py < height,
    ensures
        (exists|k: int| #![trigger frame_rects(Some(dirty), width, height)[k]]
            0 <= k < frame_rects(Some(dirty), width, height).len() && frame_rects(
                Some(dirty),
                width,
                height,
            )[k].0 <= px < frame_rects(Some(dirty), width, height)[k].0 + frame_rects(
                Some(dirty),
                width,
                height,
            )[k].2 && frame_rects(Some(dirty), width, height)[k].1 <= py < frame_rects(
                Some(dirty),
                width,
                height,
            )[k].1 + frame_rects(Some(dirty), width, height)[k].3) <==> (exists|j: int|
            #![trigger dirty[j]]
            0 <= j < dirty.len() && dirty[j].x <= px < dirty[j].x + dirty[j].w && dirty[j].y <= py
                < dirty[j].y + dirty[j].h),
{
    let rects = frame_rects(Some(dirty), width, height);
    lemma_visible_holds(dirty, width, height, px, py);
    if some_holds(rects, px, py) {
        let k = choose|k: int| 0 <= k < rects.len() && holds(#[trigger] rects[k], px, py);
        let j = choose|j: int| 0 <= j < dirty.len() && dirty_holds(#[trigger] dirty[j], px, py);
        assert(rects[k].0 <= px < rects[k].0 + rects[k].2);
        assert(dirty[j].x <= px < dirty[j].x + dirty[j].w);
    } else {
        assert forall|k: int| 0 <= k < rects.len() implies !holds(#[trigger] rects[k], px, py) by {
        }
        assert forall|j: int| 0 <= j < dirty.len() implies !dirty_holds(#[trigger] dirty[j], px, py) by {
        }
    }
}

/// The updates of a frame hold exactly the changed pixels, once a frame was sent and where
/// the picture is not scaled and changes are reported; else they hold every pixel, and none
/// beyond.
pub proof fn updates_hold_what_changed(
    s: LoopState,
    dirty: Option<Seq<DirtyRect>>,
    width: u16,
    height: u16,
    px: int,
    py: int,
)
    requires
        0 <= px < width,
        0 <= py < height,
    ensures
        (exists|k: int| #![trigger frame_parts(s, dirty, width, height)[k]]
            0 <= k < frame_parts(s, dirty, width, height).len() && frame_parts(
                s,
                dirty,
                width,
                height,
            )[k].0 <= px < frame_parts(s, dirty, width, height)[k].0 + frame_parts(
                s,
                dirty,
                width,
                height,
            )[k].2 && frame_parts(s, dirty, width, height)[k].1 <= py < frame_parts(
                s,
                dirty,
                width,
                height,
            )[k].1 + frame_parts(s, dirty, width, height)[k].3) <==> (!s.seeded || s.force_full_frame
            || dirty is None || dirty->0.len() == 0 || exists|j: int|
            #![trigger dirty->0[j]]
            0 <= j < dirty->0.len() && dirty->0[j].x <= px < dirty->0[j].x + dirty->0[j].w
                && dirty->0[j].y <= py < dirty->0[j].y + dirty->0[j].h),
        forall|k: int| #![trigger frame_parts(s, dirty, width, height)[k]]
            0 <= k < frame_parts(s, dirty, width, height).len() ==> frame_parts(
                s,
                dirty,
                width,
                height,
            )[k].2 * frame_parts(s, dirty, width, height)[k].3 <= 921_600,
{
    let reported = if s.seeded && !s.force_full_frame {
        dirty
    } else {
        None
    };
    let rects = frame_rects(reported, width, height);
    let parts = frame_parts(s, dirty, width, height);
    if reported is Some && reported->0.len() > 0 {
        lemma_visible_holds(reported->0, width, height, px, py);
        changed_pixels_are_sent(reported->0, width, height, px, py);
    }
    assert forall|k: int| 0 <= k < rects.len() implies (#[trigger] rects[k]).1 + rects[k].3
        <= 0x1_0000 by {
        assert(inside(rects[k], width, height));
    }
    lemma_all_strips_hold(rects, px, py);
    lemma_all_strips_small(rects);
    if some_holds(rects, px, py) {
        assert(some_holds(parts, px, py));
        let k = choose|k: int| 0 <= k < rects.len() && holds(#[trigger] rects[k], px, py);
        let m = choose|m: int| 0 <= m < parts.len() && holds(#[trigger] parts[m], px, py);
        assert(rects[k].0 <= px < rects[k].0 + rects[k].2);
        assert(parts[m].0 <= px < parts[m].0 + parts[m].2);
    } else {
        assert(!some_holds(parts, px, py));
        assert forall|k: int| 0 <= k < parts.len() implies !holds(#[trigger] parts[k], px, py) by {
        }
        assert forall|k: int| 0 <= k < rects.len() implies !holds(#[trigger] rects[k], px, py) by {
        }
        if !(reported is Some && reported->0.len() > 0) {
            assert(rects[0] == (0u16, 0u16, width, height));
            assert(holds(rects[0], px, py));
        }
    }
}

proof fn lemma_all_strips_small(rects: Seq<Rect>)
    requires
        forall|k: int| 0 <= k < rects.len() ==> (#[trigger] rects[k]).1 + rects[k].3 <= 0x1_0000,
    ensures
        forall|k: int|
            0 <= k < all_strips(rects).len() ==> (#[trigger] all_strips(rects)[k]).2 * all_strips(
                rects,
            )[k].3 <= 921_600,
    decreases rects.len(),
{
    if rects.len() > 0 {
        let front = rects.drop_last();
        let r = rects.last();
        assert forall|k: int| 0 <= k < front.len() implies (#[trigger] front[k]).1 + front[k].3
            <= 0x1_0000 by {
            assert(front[k] == rects[k]);
        }
        lemma_all_strips_small(front);
        let a = all_strips(front);
        let b = strips(r.0, r.1, r.2, r.3);
        assert forall|k: int| 0 <= k < (a + b).len() implies (#[trigger] (a + b)[k]).2 * (a
            + b)[k].3 <= 921_600 by {
            if k >= a.len() {
                strips_lie_within(r.0, r.1, r.2, r.3, k - a.len());
                assert((a + b)[k] == b[k - a.len()]);
            } else {
                assert((a + b)[k] == a[k]);
            }
        }
    }
}

/// An update shows the frame as it is: each of its pixels, in its four bytes, is the
/// frame's pixel at that place.
pub proof fn updates_show_the_frame(
    u: BitmapUpdate,
    src: Seq<u8>,
    stride: int,
    r: Rect,
    px: int,
    py: int,
    b: int,
)
    requires
        shows(u, src, stride, r),
        r.0 <= px < r.0 + r.2,
        r.1 <= py < r.1 + r.3,
        0 <= b < 4,
    ensures
        u.x <= px < u.x + u.width,
        u.y <= py < u.y + u.height,
        u.data@.len() == u.stride * u.height,
        u.data@[(py - u.y) * u.stride + 4 * (px - u.x) + b] == src[py * stride + 4 * px + b],
        u.format is BgrA32,
        u.x == r.0 && u.y == r.1 && u.width == r.2 && u.height == r.3,
{
    let w = r.2 as int;
    let h = r.3 as int;
    let row = py - r.1;
    let col = 4 * (px - r.0) + b;
    let i = row * (4 * w) + col;
    vstd::arithmetic::div_mod::lemma_fundamental_div_mod_converse(i, 4 * w, row, col);
    assert(0 <= i < 4 * w * h) by (nonlinear_arith)
        requires
            i == row * (4 * w) + col,
            0 <= row < h,
            0 <= col < 4 * w,
    ;
    assert(4 * w * h == (4 * w) * h) by (nonlinear_arith);
    assert(u.data@[i] == src[(r.1 + i / (4 * w)) * stride + 4 * r.0 + i % (4 * w)]);
}

/// The client's size is served exactly where sizes follow the client and both of its sides
/// lie between 200 and 8192; else the size stays.
pub proof fn reasonable_sizes_are_adopted(
    auto_size: bool,
    current: DesktopSize,
    client: DesktopSize,
)
    ensures
        auto_size && 200 <= client.width <= 8192 && 200 <= client.height <= 8192 ==> served_size(
            auto_size,
            current,
            client,
        ) == client,
        !auto_size || client.width < 200 || client.width > 8192 || client.height < 200
            || client.height > 8192 ==> served_size(auto_size, current, client) == current,
{
}

/// The width fills the upper half of the word, and the height the lower.
pub proof fn sizes_are_packed_width_first(width: u16, height: u16, v: u32)
    ensures
        packed(width, height) == width * 65536 + height,
        unpacked(v).0 * 65536 + unpacked(v).1 == v,
{
}

/// The first display with the wanted number is captured, or the first at all where none is
/// wanted, at its own size; without such a display, or with one too large, there is an error.
pub proof fn the_wanted_display_is_captured(
    displays: Seq<DisplayInfo>,
    target: Option<u32>,
    i: int,
)
    requires
        0 <= i <= displays.len(),
        forall|k: int|
            0 <= k < i ==> target is Some && (#[trigger] displays[k]).id != target->0,
    ensures
        i < displays.len() && (target is None || displays[i].id == target->0) ==> {
            let d = displays[i];
            &&& d.width <= 65535 && d.height <= 65535 ==> (selection(displays, target) matches Ok(r)
                && r.0 == d.id && r.1 == d.width && r.2 == d.height)
            &&& d.width > 65535 ==> selection(displays, target) == Err::<(u32, u16, u16), CaptureError>(
                CaptureError::WidthTooLarge,
            )
            &&& d.width <= 65535 && d.height > 65535 ==> selection(displays, target) == Err::<
                (u32, u16, u16),
                CaptureError,
            >(CaptureError::HeightTooLarge)
        },
        i == displays.len() && target is Some ==> selection(displays, target) == Err::<
            (u32, u16, u16),
            CaptureError,
        >(CaptureError::NoSuchDisplay(target->0)),
        displays.len() == 0 && target is None ==> selection(displays, target) == Err::<
            (u32, u16, u16),
            CaptureError,
        >(CaptureError::NoDisplays),
{
    lemma_chosen(displays, target, i);
}

proof fn lemma_chosen(displays: Seq<DisplayInfo>, target: Option<u32>, i: int)
    requires
        0 <= i <= displays.len(),
        forall|k: int|
            0 <= k < i ==> target is Some && (#[trigger] displays[k]).id != target->0,
    ensures
        i < displays.len() && (target is None || displays[i].id == target->0) ==> chosen(
            displays,
            target,
        ) == Some(displays[i]),
        i == displays.len() ==> chosen(displays, target) is None,
    decreases displays.len(),
{
    if i > 0 {
        let rest = displays.drop_first();
        assert(displays[0].id != target->0);
        assert forall|k: int| 0 <= k < i - 1 implies target is Some && (#[trigger] rest[k]).id
            != target->0 by {
            assert(rest[k] == displays[k + 1]);
        }
        lemma_chosen(rest, target, i - 1);
    }
}

/// A display's mode tells its width and its height, each for itself, where both can be
/// named; a picture counts as scaled exactly where neither its native nor its pixel size is
/// the configured one, and is fitted between bars only where the size follows the client and
/// nothing is to be stretched.
pub proof fn scaling_compares_sizes(
    w: u64,
    h: u64,
    native: (u16, u16),
    backing: (u16, u16),
    configured: (u16, u16),
    auto_size: bool,
    stretch: bool,
)
    ensures
        w <= 65535 && h <= 65535 ==> pixel_size(Some((w, h)), native).0 == w && pixel_size(
            Some((w, h)),
            native,
        ).1 == h,
        w > 65535 || h > 65535 ==> pixel_size(Some((w, h)), native) == native,
        pixel_size(None, native) == native,
        native == configured ==> scaling(native, backing, configured, auto_size, stretch) == (
            false,
            false,
        ),
        backing == configured ==> scaling(native, backing, configured, auto_size, stretch) == (
            false,
            false,
        ),
        native != configured && backing != configured ==> scaling(
            native,
            backing,
            configured,
            auto_size,
            stretch,
        ).0,
        native != configured && backing != configured ==> (scaling(
            native,
            backing,
            configured,
            auto_size,
            stretch,
        ).1 <==> auto_size && !stretch),
{
}

/// The changed pixels of several areas add up, and those of one are its width times its
/// height.
pub proof fn changed_areas_add_up(a: Seq<(u64, u64)>, b: Seq<(u64, u64)>, w: u64, h: u64)
    ensures
        area_sum(Seq::empty()) == 0,
        area_sum(seq![(w, h)]) == w * h,
        area_sum(a + b) == area_sum(a) + area_sum(b),
    decreases b.len(),
{
    let one = seq![(w, h)];
    assert(one.drop_last() =~= Seq::<(u64, u64)>::empty());
    assert(area_sum(one) == area_sum(one.drop_last()) + one.last().0 as nat * one.last().1 as nat);
    if b.len() == 0 {
        assert(a + b =~= a);
    } else {
        assert((a + b).drop_last() =~= a + b.drop_last());
        assert((a + b).last() == b.last());
        changed_areas_add_up(a, b.drop_last(), w, h);
    }
}

/// A change asks for a keyframe where the trigger is on and armed and the changed pixels
/// make up the share of the frame that is set, or the one for clicks shortly after a click.
/// It is armed again once less than half that share changes, and less than one percent
/// where that is more.
pub proof fn large_changes_ask_for_keyframes(
    s: LoopState,
    frame_px: int,
    changed_px: int,
    clicked: bool,
)
    requires
        frame_px > 0,
        !s.was_suppressed,
    ensures
        !s.keyframe_on_change.enabled ==> !frame_step(s, frame_px, changed_px, clicked).0.request_keyframe,
        s.keyframe_on_change.enabled && !clicked ==> (frame_step(
            s,
            frame_px,
            changed_px,
            clicked,
        ).0.request_keyframe <==> s.kf_armed && changed_px * 100 >= frame_px
            * s.keyframe_on_change.change_pct),
        s.keyframe_on_change.enabled && clicked ==> (frame_step(
            s,
            frame_px,
            changed_px,
            clicked,
        ).0.request_keyframe <==> s.kf_armed && changed_px * 100 >= frame_px
            * s.keyframe_on_change.click_pct),
        s.keyframe_on_change.enabled && !s.kf_armed && !clicked ==> (frame_step(
            s,
            frame_px,
            changed_px,
            clicked,
        ).1.kf_armed <==> changed_px * 100 < frame_px * (if s.keyframe_on_change.change_pct >= 2 {
            s.keyframe_on_change.change_pct / 2
        } else {
            1
        })),
        s.keyframe_on_change.enabled && !s.kf_armed && clicked ==> (frame_step(
            s,
            frame_px,
            changed_px,
            clicked,
        ).1.kf_armed <==> changed_px * 100 < frame_px * (if s.keyframe_on_change.click_pct >= 2 {
            s.keyframe_on_change.click_pct / 2
        } else {
            1
        })),
        !frame_step(s, frame_px, changed_px, clicked).0.resumed,
        frame_step(s, frame_px, changed_px, clicked).1.pending == s.pending,
        frame_step(s, frame_px, changed_px, clicked).1.flush_remaining == s.flush_remaining,
{
}

/// A click counts until the window has passed, in whole milliseconds, and no longer.
pub proof fn clicks_are_forgotten(click: Duration, later: Duration, window: Duration)
    requires
        1_000_000 <= click.nanos <= later.nanos,
        later.nanos / 1_000_000 <= u64::MAX,
        window.nanos / 1_000_000 <= u64::MAX,
    ensures
        clicked_within(click_mark(click), later, window) <==> later.nanos / 1_000_000 - click.nanos
            / 1_000_000 <= window.nanos / 1_000_000,
        click_mark(click) == click.nanos / 1_000_000,
{
    assert(click.nanos / 1_000_000 >= 1);
    assert(click.nanos / 1_000_000 <= later.nanos / 1_000_000);
}

/// In a round of the loop a new size goes out first, and nothing else happens. Then the
/// pointer is looked at, if that was never done or 66 milliseconds ago. What is pending comes
/// next, first in, first out.
pub proof fn rounds_have_an_order(
    s: LoopState,
    now: Instant,
    size: DesktopSize,
    suppressed: Option<bool>,
)
    ensures
        turn_step(s, now, Some(size), suppressed) == (Turn::Deliver(DisplayUpdate::Resize(size)), s),
        s.last_cursor_poll is None ==> turn_step(s, now, None, suppressed) == (
            Turn::PollCursor,
            LoopState { last_cursor_poll: Some(now), ..s },
        ),
        s.last_cursor_poll matches Some(t) && now.nanos >= t.nanos + 66_000_000 ==> turn_step(
            s,
            now,
            None,
            suppressed,
        ) == (Turn::PollCursor, LoopState { last_cursor_poll: Some(now), ..s }),
        s.last_cursor_poll matches Some(t) && now.nanos < t.nanos + 66_000_000 && s.pending.len() > 0
            ==> turn_step(s, now, None, suppressed) == (
            Turn::Deliver(s.pending[0]),
            LoopState { pending: s.pending.skip(1), ..s },
        ),
{
    if s.pending.len() > 0 {
        assert(s.pending.drop_first() =~= s.pending.skip(1));
    }
}

/// With nothing pending, a loop whose client wants no output goes on for one second and
/// then pauses, looking again every tenth of a second; flush frames are given up. A client
/// that wants output again, or never sent word, is served at once.
pub proof fn output_pauses_after_a_second(s: LoopState, now: Instant, t: Instant)
    requires
        s.pending.len() == 0,
        s.first_egfx_frame_sent,
        now.nanos >= t.nanos,
    ensures
        serve_step(LoopState { suppressed_since: None, ..s }, now, Some(true)).1.suppressed_since
            == Some(now),
        serve_step(LoopState { suppressed_since: None, ..s }, now, Some(true)).0 is AwaitFrame,
        now.nanos - t.nanos < 1_000_000_000 ==> serve_step(
            LoopState { suppressed_since: Some(t), ..s },
            now,
            Some(true),
        ).0 is AwaitFrame,
        now.nanos - t.nanos >= 1_000_000_000 ==> serve_step(
            LoopState { suppressed_since: Some(t), ..s },
            now,
            Some(true),
        ) == (
            Turn::Sleep(Duration { nanos: 100_000_000 }),
            LoopState {
                suppressed_since: Some(t),
                was_suppressed: true,
                flush_remaining: 0,
                ..s
            },
        ),
        serve_step(s, now, Some(false)).0 is AwaitFrame,
        serve_step(s, now, Some(false)).1.suppressed_since is None,
        serve_step(s, now, None).0 is AwaitFrame,
        serve_step(LoopState { first_egfx_frame_sent: false, ..s }, now, Some(true)).0 is AwaitFrame,
{
}

/// After a frame the loop waits one frame interval for the next as often as flush frames
/// are due, and each wait in vain sends the last frame once more; then it waits on.
pub proof fn flush_frames_follow_a_frame(
    s: LoopState,
    src: Seq<u8>,
    stride: usize,
    now: Instant,
)
    requires
        s.pending.len() == 0,
    ensures
        submitted(s, src, stride).flush_remaining == s.flush_frames,
        submitted(s, src, stride).last_frame == src,
        submitted(s, src, stride).last_stride == stride,
        submitted(s, src, stride).seeded,
        submitted(s, src, stride).first_egfx_frame_sent,
        s.flush_remaining > 0 ==> serve_step(s, now, None).0 == (Turn::AwaitFrame {
            timeout: Some(s.frame_interval),
        }),
        s.flush_remaining == 0 ==> serve_step(s, now, None).0 == (Turn::AwaitFrame { timeout: None }),
        s.flush_remaining > 0 ==> timeout_step(s).1.flush_remaining == s.flush_remaining - 1,
        timeout_step(s).0 <==> s.uses_gfx && s.last_frame.len() > 0,
        timeout_step(s).1.last_frame == s.last_frame,
{
}

/// A loop starts with nothing sent, nothing pending and the trigger armed, so that its first
/// frame goes out whole.
pub proof fn loops_start_afresh(
    force_full_frame: bool,
    uses_gfx: bool,
    k: KeyframeOnChange,
    frame_interval: Duration,
    flush_frames: u32,
    dirty: Option<Seq<DirtyRect>>,
    width: u16,
    height: u16,
    now: Instant,
)
    ensures
        ({
            let s = started(force_full_frame, uses_gfx, k, frame_interval, flush_frames);
            &&& s.pending.len() == 0
            &&& frame_parts(s, dirty, width, height) == frame_parts(s, None, width, height)
            &&& turn_step(s, now, None, None).0 is PollCursor
            &&& !timeout_step(s).0
            &&& s.kf_armed
            &&& !s.was_suppressed
            &&& s.force_full_frame == force_full_frame
            &&& s.uses_gfx == uses_gfx
            &&& s.keyframe_on_change == k
            &&& s.frame_interval == frame_interval
            &&& s.flush_frames == flush_frames
        }),
{
}

/// What the pointer has to report comes before everything pending, in its order.
pub proof fn the_pointer_comes_first(
    s: LoopState,
    updates: Seq<DisplayUpdate>,
    now: Instant,
    suppressed: Option<bool>,
)
    requires
        updates.len() > 0,
    ensures
        cursor_step(s, updates, now, suppressed).0 matches Turn::Deliver(u) && seq![u]
            + cursor_step(s, updates, now, suppressed).1.pending == updates + s.pending,
{
    let r = cursor_step(s, updates, now, suppressed);
    assert(seq![updates[0]] + (updates.drop_first() + s.pending) =~= updates + s.pending);
}

/// Where the pointer has nothing to report, the round goes on as one in which nobody looked.
pub proof fn a_still_pointer_changes_nothing(
    s: LoopState,
    updates: Seq<DisplayUpdate>,
    now: Instant,
    suppressed: Option<bool>,
)
    requires
        updates.len() == 0,
        !poll_due(s, now),
    ensures
        cursor_step(s, updates, now, suppressed) == turn_step(s, now, None, suppressed),
{
}

/// Every changed pixel is among the updates that a frame adds, as the frame has it; what was
/// pending before stays in front.
pub proof fn changed_pixels_reach_the_queue(
    before: LoopState,
    after: LoopState,
    src: Seq<u8>,
    stride: int,
    dirty: Seq<DirtyRect>,
    width: u16,
    height: u16,
    j: int,
    px: int,
    py: int,
    b: int,
) -> (at: int)
    requires
        queued_frame(before, after, src, stride, frame_parts(before, Some(dirty), width, height)),
        0 <= j < dirty.len(),
        dirty[j].x <= px < dirty[j].x + dirty[j].w,
        dirty[j].y <= py < dirty[j].y + dirty[j].h,
        0 <= px < width,
        0 <= py < height,
        0 <= b < 4,
    ensures
        before.pending.len() <= at < after.pending.len(),
        after.pending[at] matches DisplayUpdate::Bitmap(u) && u.x <= px < u.x + u.width && u.y <= py
            < u.y + u.height && u.data@[(py - u.y) * u.stride + 4 * (px - u.x) + b] == src[py * stride
            + 4 * px + b],
        after.pending.take(before.pending.len() as int) == before.pending,
        after.seeded,
{
    let parts = frame_parts(before, Some(dirty), width, height);
    updates_hold_what_changed(before, Some(dirty), width, height, px, py);
    let d = Some(dirty)->0[j];
    assert(d.x <= px < d.x + d.w);
    let k = choose|k: int|
        #![trigger parts[k]]
        0 <= k < parts.len() && parts[k].0 <= px < parts[k].0 + parts[k].2 && parts[k].1 <= py
            < parts[k].1 + parts[k].3;
    let n = before.pending.len() as int;
    let u = after.pending[n + k];
    assert(u is Bitmap && shows(u->Bitmap_0, src, stride, parts[k]));
    updates_show_the_frame(u->Bitmap_0, src, stride, parts[k], px, py, b);
    n + k
}

} // verus!
