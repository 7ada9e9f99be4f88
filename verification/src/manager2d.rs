//! Which tiles a flat view needs, and the requests that bring them in.

use arrayvec::ArrayVec;
use vstd::prelude::*;
use crate::geometry::{RectI, Vector2I};
use crate::texture::{RequestResult, VirtualTexture};
use crate::tile::{encode_key, TileAddress, TileDescriptor};

verus! {

/// A tile to rasterize, and the address of the slot that waits for it.
#[derive(Clone, Copy, Debug, PartialEq, Eq, Structural)]
pub struct TileRequest {
    pub descriptor: TileDescriptor,
    pub address: TileAddress,
}

/// One level of detail of a view, and the tiles of that level that the
/// view covers, as a rectangle in units of tiles.
#[derive(Clone, Copy, Debug, PartialEq, Eq, Structural)]
pub struct LodView {
    pub lod: i8,
    pub tile_space_rect: RectI,
}

/// The levels of detail of a view: at most two, in an `arrayvec::ArrayVec`.
#[verifier::external_body]
pub struct LodList {
    lods: ArrayVec<[i8; 2]>,
}

/// The levels of detail that a list holds, in order.
pub uninterp spec fn lod_list(lods: LodList) -> Seq<i8>;

/// `ArrayVec::new`: a list that holds nothing.
#[verifier::external_body]
fn lods_new() -> (lods: LodList)
    ensures
        lod_list(lods) == Seq::<i8>::empty(),
{
    LodList { lods: ArrayVec::new() }
}

/// `ArrayVec::push`: appends `lod`. The call panics on a full list, which
/// here is one of two items.
#[verifier::external_body]
fn lods_push(lods: &mut LodList, lod: i8)
    requires
        lod_list(*old(lods)).len() < 2,
    ensures
        lod_list(*final(lods)) == lod_list(*old(lods)).push(lod),
{
    lods.lods.push(lod)
}

/// The items of the `ArrayVec`, read through its slice with `to_vec`.
#[verifier::external_body]
fn lods_to_vec(lods: &LodList) -> (items: Vec<i8>)
    ensures
        items@ == lod_list(*lods),
{
    lods.lods.to_vec()
}

impl LodList {
    /// The levels of detail, in order.
    pub fn to_vec(&self) -> (items: Vec<i8>)
        ensures
            items@ == lod_list(*self),
    {
        lods_to_vec(self)
    }
}

/// The exponent of the single-precision number with the bit pattern
/// `bits`, without its bias: the base-2 logarithm of a normal number,
/// rounded down.
pub open spec fn scale_exponent(bits: u32) -> int {
    (bits as int / 0x80_0000) % 256 - 127
}

/// The fraction bits of the single-precision number with the bit pattern
/// `bits`: zero exactly when a normal number is a power of two.
pub open spec fn scale_fraction(bits: u32) -> int {
    bits as int % 0x80_0000
}

/// Whether `bits` is the bit pattern of a positive normal single-precision
/// number: the sign is clear and the exponent is neither all zeros nor all ones.
pub open spec fn scale_is_normal(bits: u32) -> bool {
    bits < 0x8000_0000 && -127 < scale_exponent(bits) < 128
}

/// Whether a key can have the level of detail `lod`.
pub open spec fn lod_in_range(lod: int) -> bool {
    -32 <= lod < 32
}

/// The levels of detail to show at the scale with the bit pattern `bits`:
/// the base-2 logarithm of the scale rounded down, and the level above it
/// unless the scale is a power of two; of these the levels that a key can
/// have. None for a scale that is not a positive normal number.
pub open spec fn lods_for_scale(bits: u32) -> Seq<i8> {
    if !scale_is_normal(bits) {
        Seq::empty()
    } else {
        let lower = scale_exponent(bits);
        let first = if lod_in_range(lower) {
            seq![lower as i8]
        } else {
            Seq::empty()
        };
        if scale_fraction(bits) != 0 && lod_in_range(lower + 1) {
            first.push((lower + 1) as i8)
        } else {
            first
        }
    }
}

/// The requests that an answer to a request for `key` adds to the tiles to
/// rasterize: one for a miss, none else.
pub open spec fn miss_requests(key: TileDescriptor, result: RequestResult) -> Seq<TileRequest> {
    match result {
        RequestResult::CacheMiss(address) => seq![TileRequest { descriptor: key, address }],
        _ => Seq::empty(),
    }
}

/// Step `i` of a run of requests: the request for `keys[i]` led from
/// `states[i]` to `states[i + 1]` with the answer `results[i]`.
pub open spec fn trace_step(
    states: Seq<VirtualTexture>,
    keys: Seq<TileDescriptor>,
    results: Seq<RequestResult>,
    i: int,
) -> bool {
    states[i].requested(keys[i], states[i + 1], results[i])
}

/// Whether `states` and `results` record a run of requests for `keys`,
/// one after the other.
pub open spec fn is_trace(
    states: Seq<VirtualTexture>,
    keys: Seq<TileDescriptor>,
    results: Seq<RequestResult>,
) -> bool {
    &&& states.len() == keys.len() + 1
    &&& results.len() == keys.len()
    &&& forall|i: int| 0 <= i < keys.len() ==> #[trigger] trace_step(states, keys, results, i)
}

/// The requests that a run of requests adds to the tiles to rasterize:
/// one for each miss, in order.
pub open spec fn misses(keys: Seq<TileDescriptor>, results: Seq<RequestResult>) -> Seq<
    TileRequest,
>
    decreases keys.len(),
{
    if keys.len() == 0 {
        Seq::empty()
    } else {
        misses(keys.drop_last(), results.drop_last()) + miss_requests(keys.last(), results.last())
    }
}

/// What requests for `keys`, one after the other, make of the cache
/// `before`: `after` is the cache that they leave and `needed` holds a
/// request for each miss, in order.
pub open spec fn requested_all(
    before: VirtualTexture,
    keys: Seq<TileDescriptor>,
    after: VirtualTexture,
    needed: Seq<TileRequest>,
) -> bool {
    exists|states: Seq<VirtualTexture>, results: Seq<RequestResult>|
        {
            &&& #[trigger] is_trace(states, keys, results)
            &&& states[0] == before
            &&& states.last() == after
            &&& needed == misses(keys, results)
        }
}

/// One more request extends a run of requests.
pub proof fn lemma_trace_grows(
    states: Seq<VirtualTexture>,
    keys: Seq<TileDescriptor>,
    results: Seq<RequestResult>,
    key: TileDescriptor,
    after: VirtualTexture,
    result: RequestResult,
)
    requires
        is_trace(states, keys, results),
        states.last().requested(key, after, result),
    ensures
        is_trace(states.push(after), keys.push(key), results.push(result)),
        misses(keys.push(key), results.push(result)) == misses(keys, results) + miss_requests(
            key,
            result,
        ),
{
    let longer = keys.push(key);
    assert forall|i: int| 0 <= i < longer.len() implies #[trigger] trace_step(
        states.push(after),
        longer,
        results.push(result),
        i,
    ) by {
        if i < keys.len() {
            assert(trace_step(states, keys, results, i));
        }
    }
    assert(longer.drop_last() =~= keys);
    assert(results.push(result).drop_last() =~= results);
}

/// Whether a key can name every tile of `rect` on level `lod`.
pub open spec fn rect_nameable(rect: RectI, lod: i8) -> bool {
    rect.columns() == 0 || rect.rows() == 0 || {
        &&& 0 <= rect.origin.x
        &&& rect.origin.x + rect.size.x <= 8192
        &&& 0 <= rect.origin.y
        &&& rect.origin.y + rect.size.y <= 8192
        &&& lod_in_range(lod as int)
    }
}

/// The keys of the tiles of `rect` on level `lod`, row by row.
pub open spec fn rect_keys(rect: RectI, lod: i8) -> Seq<TileDescriptor> {
    Seq::new(
        (rect.columns() * rect.rows()) as nat,
        |i: int|
            TileDescriptor(
                encode_key(
                    rect.origin.x + i % rect.columns(),
                    rect.origin.y + i / rect.columns(),
                    lod as int,
                ) as u32,
            ),
    )
}

/// The keys of the tiles of every view in `views`, view by view.
pub open spec fn view_keys(views: Seq<LodView>) -> Seq<TileDescriptor>
    decreases views.len(),
{
    if views.len() == 0 {
        Seq::empty()
    } else {
        view_keys(views.drop_last()) + rect_keys(views.last().tile_space_rect, views.last().lod)
    }
}

/// Requests every tile of `rect` on level `lod`, row by row, and appends a
/// request to `needed_tiles` for each miss; extends the record of a run of
/// requests that ended with the cache as it is.
fn request_rect_traced(
    texture: &mut VirtualTexture,
    needed_tiles: &mut Vec<TileRequest>,
    lod: i8,
    rect: RectI,
    Ghost(start): Ghost<int>,
    Ghost(done): Ghost<Seq<TileDescriptor>>,
    Ghost(states): Ghost<Seq<VirtualTexture>>,
    Ghost(results): Ghost<Seq<RequestResult>>,
) -> (trace: Ghost<(Seq<VirtualTexture>, Seq<RequestResult>)>)
    requires
        old(texture).wf(),
        rect_nameable(rect, lod),
        is_trace(states, done, results),
        states.last() == *old(texture),
        0 <= start <= old(needed_tiles)@.len(),
        old(needed_tiles)@.subrange(start, old(needed_tiles)@.len() as int) == misses(
            done,
            results,
        ),
    ensures
        final(texture).wf(),
        final(needed_tiles)@.len() >= old(needed_tiles)@.len(),
        final(needed_tiles)@.subrange(0, old(needed_tiles)@.len() as int) == old(needed_tiles)@,
        is_trace(trace@.0, done + rect_keys(rect, lod), trace@.1),
        trace@.0[0] == states[0],
        trace@.0.last() == *final(texture),
        final(needed_tiles)@.subrange(start, final(needed_tiles)@.len() as int) == misses(
            done + rect_keys(rect, lod),
            trace@.1,
        ),
{
    let ghost keys = rect_keys(rect, lod);
    let ghost length = needed_tiles@.len() as int;
    if rect.size.x <= 0 || rect.size.y <= 0 {
        proof {
            assert(rect.columns() * rect.rows() == 0) by (nonlinear_arith)
                requires
                    rect.columns() == 0 || rect.rows() == 0,
            ;
            assert(done + keys =~= done);
            assert(needed_tiles@.subrange(0, length) =~= needed_tiles@);
        }
        return Ghost((states, results));
    }
    let columns: i32 = rect.size.x;
    let rows: i32 = rect.size.y;
    let ghost mut states = states;
    let ghost mut results = results;
    let ghost first = states[0];
    let mut row: i32 = 0;
    proof {
        assert(done + keys.subrange(0, 0) =~= done);
        assert(needed_tiles@.subrange(0, length) =~= needed_tiles@);
    }
    while row < rows
        invariant
            0 <= row <= rows,
            columns == rect.size.x,
            rows == rect.size.y,
            columns > 0,
            rect_nameable(rect, lod),
            keys == rect_keys(rect, lod),
            keys.len() == columns * rows,
            texture.wf(),
            length == old(needed_tiles)@.len(),
            0 <= start <= length,
            needed_tiles@.len() >= length,
            needed_tiles@.subrange(0, length) == old(needed_tiles)@,
            is_trace(states, done + keys.subrange(0, row * columns), results),
            states[0] == first,
            states.last() == *texture,
            needed_tiles@.subrange(start, needed_tiles@.len() as int) == misses(
                done + keys.subrange(0, row * columns),
                results,
            ),
        decreases rows - row,
    {
        let mut column: i32 = 0;
        proof {
            assert(row * columns + columns <= rows * columns) by (nonlinear_arith)
                requires
                    0 <= row < rows,
                    columns > 0,
            ;
        }
        while column < columns
            invariant
                0 <= row < rows,
                0 <= column <= columns,
                columns == rect.size.x,
                rows == rect.size.y,
                rect_nameable(rect, lod),
                keys == rect_keys(rect, lod),
                keys.len() == columns * rows,
                row * columns + columns <= rows * columns,
                texture.wf(),
                length == old(needed_tiles)@.len(),
                0 <= start <= length,
                needed_tiles@.len() >= length,
                needed_tiles@.subrange(0, length) == old(needed_tiles)@,
                is_trace(states, done + keys.subrange(0, row * columns + column), results),
                states[0] == first,
                states.last() == *texture,
                needed_tiles@.subrange(start, needed_tiles@.len() as int) == misses(
                    done + keys.subrange(0, row * columns + column),
                    results,
                ),
            decreases columns - column,
        {
            let ghost index = row * columns + column;
            proof {
                assert(index % (columns as int) == column && index / (columns as int) == row)
                    by (nonlinear_arith)
                    requires
                        index == row * columns + column,
                        0 <= column < columns,
                        0 <= row,
                ;
            }
            let descriptor = TileDescriptor::new(
                Vector2I::new(rect.origin.x + column, rect.origin.y + row),
                lod,
            );
            let ghost earlier = needed_tiles@;
            let result = texture.request_tile(descriptor);
            if let RequestResult::CacheMiss(address) = result {
                needed_tiles.push(TileRequest { descriptor, address });
            }
            proof {
                assert(keys[index] == descriptor);
                let so_far = done + keys.subrange(0, index);
                lemma_trace_grows(states, so_far, results, descriptor, *texture, result);
                assert(so_far.push(descriptor) =~= done + keys.subrange(0, index + 1));
                assert(needed_tiles@.subrange(start, needed_tiles@.len() as int)
                    =~= earlier.subrange(start, earlier.len() as int) + miss_requests(
                    descriptor,
                    result,
                ));
                assert(needed_tiles@.subrange(0, length) =~= earlier.subrange(0, length));
                states = states.push(*texture);
                results = results.push(result);
            }
            column = column + 1;
        }
        proof {
            assert((row + 1) * columns == row * columns + columns) by (nonlinear_arith);
        }
        row = row + 1;
    }
    proof {
        assert(keys.subrange(0, rows * columns) =~= keys) by {
            assert(rows * columns == columns * rows) by (nonlinear_arith);
        }
    }
    Ghost((states, results))
}

/// Requests every tile of `rect` on level `lod`, row by row, and appends a
/// request to `needed_tiles` for each miss.
pub fn request_tiles_in_rect(
    texture: &mut VirtualTexture,
    needed_tiles: &mut Vec<TileRequest>,
    lod: i8,
    rect: RectI,
)
    requires
        old(texture).wf(),
        rect_nameable(rect, lod),
    ensures
        final(texture).wf(),
        final(needed_tiles)@.len() >= old(needed_tiles)@.len(),
        final(needed_tiles)@.subrange(0, old(needed_tiles)@.len() as int) == old(needed_tiles)@,
        requested_all(
            *old(texture),
            rect_keys(rect, lod),
            *final(texture),
            final(needed_tiles)@.subrange(
                old(needed_tiles)@.len() as int,
                final(needed_tiles)@.len() as int,
            ),
        ),
{
    let ghost start = needed_tiles@.len() as int;
    let ghost none = Seq::<TileDescriptor>::empty();
    let ghost initial = seq![*texture];
    let ghost unanswered = Seq::<RequestResult>::empty();
    proof {
        assert(needed_tiles@.subrange(start, start) =~= Seq::<TileRequest>::empty());
    }
    let trace = request_rect_traced(
        texture,
        needed_tiles,
        lod,
        rect,
        Ghost(start),
        Ghost(none),
        Ghost(initial),
        Ghost(unanswered),
    );
    proof {
        assert(none + rect_keys(rect, lod) =~= rect_keys(rect, lod));
        assert(is_trace(trace@.0, rect_keys(rect, lod), trace@.1));
    }
}

pub struct VirtualTextureManager2D {
    pub texture: VirtualTexture,
    pub viewport_size: Vector2I,
}

impl VirtualTextureManager2D {
    #[inline]
    pub fn new(texture: VirtualTexture, viewport_size: Vector2I) -> (manager:
        VirtualTextureManager2D)
        ensures
            manager.texture == texture,
            manager.viewport_size == viewport_size,
    {
        VirtualTextureManager2D { texture, viewport_size }
    }

    #[inline]
    pub fn viewport_size(&self) -> (size: Vector2I)
        ensures
            size == self.viewport_size,
    {
        self.viewport_size
    }

    /// The levels of detail to show at the scale whose single-precision
    /// bit pattern is `scale_bits`.
    pub fn current_lods(&self, scale_bits: u32) -> (lods: LodList)
        ensures
            lod_list(lods) == lods_for_scale(scale_bits),
    {
        let mut lods = lods_new();
        let biased: u32 = (scale_bits >> 23) & 0xff;
        let fraction: u32 = scale_bits & 0x7f_ffff;
        proof {
            assert(biased == (scale_bits / 0x80_0000) % 256 && fraction == scale_bits % 0x80_0000)
                by (bit_vector)
                requires
                    biased == (scale_bits >> 23) & 0xff,
                    fraction == scale_bits & 0x7f_ffff,
            ;
        }
        if scale_bits >= 0x8000_0000 || biased == 0 || biased == 255 {
            return lods;
        }
        let lower_lod: i32 = biased as i32 - 127;
        if -32 <= lower_lod && lower_lod < 32 {
            lods_push(&mut lods, lower_lod as i8);
        }
        if fraction != 0 && -32 <= lower_lod + 1 && lower_lod + 1 < 32 {
            lods_push(&mut lods, (lower_lod + 1) as i8);
        }
        lods
    }

    /// Requests the tiles of every view in `views`, view by view and row
    /// by row, and appends a request to `needed_tiles` for each miss.
    pub fn request_needed_tiles(&mut self, needed_tiles: &mut Vec<TileRequest>, views: &Vec<LodView>)
        requires
            old(self).texture.wf(),
            forall|i: int|
                0 <= i < views@.len() ==> rect_nameable(
                    (#[trigger] views@[i]).tile_space_rect,
                    views@[i].lod,
                ),
        ensures
            final(self).texture.wf(),
            final(self).viewport_size == old(self).viewport_size,
            final(needed_tiles)@.len() >= old(needed_tiles)@.len(),
            final(needed_tiles)@.subrange(0, old(needed_tiles)@.len() as int) == old(
                needed_tiles,
            )@,
            requested_all(
                old(self).texture,
                view_keys(views@),
                final(self).texture,
                final(needed_tiles)@.subrange(
                    old(needed_tiles)@.len() as int,
                    final(needed_tiles)@.len() as int,
                ),
            ),
    {
        let ghost start = needed_tiles@.len() as int;
        let ghost mut states: Seq<VirtualTexture> = seq![self.texture];
        let ghost mut results: Seq<RequestResult> = Seq::empty();
        let mut index: usize = 0;
        proof {
            assert(views@.subrange(0, 0) =~= Seq::<LodView>::empty());
            assert(needed_tiles@.subrange(start, start) =~= Seq::<TileRequest>::empty());
            assert(needed_tiles@.subrange(0, start) =~= needed_tiles@);
        }
        while index < views.len()
            invariant
                index <= views@.len(),
                self.texture.wf(),
                self.viewport_size == old(self).viewport_size,
                forall|i: int|
                    0 <= i < views@.len() ==> rect_nameable(
                        (#[trigger] views@[i]).tile_space_rect,
                        views@[i].lod,
                    ),
                start == old(needed_tiles)@.len(),
                needed_tiles@.len() >= start,
                needed_tiles@.subrange(0, start) == old(needed_tiles)@,
                is_trace(states, view_keys(views@.subrange(0, index as int)), results),
                states[0] == old(self).texture,
                states.last() == self.texture,
                needed_tiles@.subrange(start, needed_tiles@.len() as int) == misses(
                    view_keys(views@.subrange(0, index as int)),
                    results,
                ),
            decreases views@.len() - index,
        {
            let view = views[index];
            let ghost split = needed_tiles@.len() as int;
            let ghost done_keys = view_keys(views@.subrange(0, index as int));
            let trace = request_rect_traced(
                &mut self.texture,
                needed_tiles,
                view.lod,
                view.tile_space_rect,
                Ghost(start),
                Ghost(done_keys),
                Ghost(states),
                Ghost(results),
            );
            proof {
                let done = views@.subrange(0, index as int);
                let more = views@.subrange(0, index + 1);
                assert(more.drop_last() =~= done);
                assert(more.last() == view);
                assert(needed_tiles@.subrange(0, start) =~= needed_tiles@.subrange(
                    0,
                    split,
                ).subrange(0, start));
                states = trace@.0;
                results = trace@.1;
            }
            index = index + 1;
        }
        proof {
            assert(views@.subrange(0, views@.len() as int) =~= views@);
            assert(is_trace(states, view_keys(views@), results));
        }
    }

    /// Requests every tile of `tile_space_rect` on level `lod`, row by
    /// row, and appends a request to `needed_tiles` for each miss.
    pub fn request_needed_tiles_for_lod(
        &mut self,
        needed_tiles: &mut Vec<TileRequest>,
        lod: i8,
        tile_space_rect: RectI,
    )
        requires
            old(self).texture.wf(),
            rect_nameable(tile_space_rect, lod),
        ensures
            final(self).texture.wf(),
            final(self).viewport_size == old(self).viewport_size,
            final(needed_tiles)@.len() >= old(needed_tiles)@.len(),
            final(needed_tiles)@.subrange(0, old(needed_tiles)@.len() as int) == old(
                needed_tiles,
            )@,
            requested_all(
                old(self).texture,
                rect_keys(tile_space_rect, lod),
                final(self).texture,
                final(needed_tiles)@.subrange(
                    old(needed_tiles)@.len() as int,
                    final(needed_tiles)@.len() as int,
                ),
            ),
    {
        request_tiles_in_rect(&mut self.texture, needed_tiles, lod, tile_space_rect);
    }
}

/// Every state of a run of requests that starts from a well-formed cache is well formed.
proof fn lemma_trace_wf(
    states: Seq<VirtualTexture>,
    keys: Seq<TileDescriptor>,
    results: Seq<RequestResult>,
    i: int,
)
    requires
        is_trace(states, keys, results),
        states[0].wf(),
        0 <= i < states.len(),
    ensures
        states[i].wf(),
{
    if i > 0 {
        assert(trace_step(states, keys, results, i - 1));
    }
}

/// A run of requests without its last request is a run of requests.
proof fn lemma_trace_front(
    states: Seq<VirtualTexture>,
    keys: Seq<TileDescriptor>,
    results: Seq<RequestResult>,
)
    requires
        is_trace(states, keys, results),
        keys.len() > 0,
    ensures
        is_trace(states.drop_last(), keys.drop_last(), results.drop_last()),
        states.drop_last()[0] == states[0],
        states.drop_last().last() == states[keys.len() - 1],
        states[keys.len() - 1].requested(keys.last(), states.last(), results.last()),
{
    assert forall|i: int| 0 <= i < keys.drop_last().len() implies #[trigger] trace_step(
        states.drop_last(),
        keys.drop_last(),
        results.drop_last(),
        i,
    ) by {
        assert(trace_step(states, keys, results, i));
    }
    assert(trace_step(states, keys, results, keys.len() - 1));
}

/// Every request that a run of requests hands back is pending in the
/// cache that the run leaves: the slot at its address holds its tile and
/// waits for the rasterizer.
pub proof fn lemma_requests_are_pending(
    states: Seq<VirtualTexture>,
    keys: Seq<TileDescriptor>,
    results: Seq<RequestResult>,
    i: int,
)
    requires
        is_trace(states, keys, results),
        states[0].wf(),
        0 <= i < misses(keys, results).len(),
    ensures
        ({
            let request = misses(keys, results)[i];
            let after = states.last();
            &&& request.address.0 < after.slots().len()
            &&& after.slots()[request.address.0 as int] == crate::texture::pending_slot(
                request.address.0 as int,
                request.descriptor,
            )
            &&& after.directory().contains_key(request.descriptor)
            &&& after.directory()[request.descriptor] == request.address
        }),
    decreases keys.len(),
{
    if keys.len() > 0 {
        lemma_trace_front(states, keys, results);
        let front_states = states.drop_last();
        let front_keys = keys.drop_last();
        let front_results = results.drop_last();
        let middle = states[keys.len() - 1];
        let after = states.last();
        let key = keys.last();
        let result = results.last();
        let earlier = misses(front_keys, front_results);
        lemma_trace_wf(states, keys, results, keys.len() - 1);
        assert(middle.requested(key, after, result));
        assert(after.wf());
        let request = misses(keys, results)[i];
        if i < earlier.len() {
            lemma_requests_are_pending(front_states, front_keys, front_results, i);
            assert(request == earlier[i]);
            assert(middle.slots()[request.address.0 as int].status
                == crate::texture::TileCacheStatus::Pending);
            assert(after.slots()[request.address.0 as int] == middle.slots()[request.address.0 as int]);
        } else {
            assert(miss_requests(key, result).len() == 1);
            assert(request == miss_requests(key, result)[0]);
            assert(result == RequestResult::CacheMiss(request.address));
            assert(!middle.directory().contains_key(key));
            assert(middle.free_address() >= 0);
            crate::texture::lemma_evictable_not_pending(middle.lru_order(), middle.slots());
            assert(middle.free_address() < middle.slots().len());
            assert(request.address.0 == middle.free_address());
        }
        assert(after.slots().len() == after.spec_cache_size());
        crate::texture::lemma_directory_matches_slots(after, request.descriptor, request.address);
    }
}

/// A run of requests hands back no tile twice: the requests differ in
/// their tiles and in their addresses.
pub proof fn lemma_requests_are_distinct(
    states: Seq<VirtualTexture>,
    keys: Seq<TileDescriptor>,
    results: Seq<RequestResult>,
    i: int,
    j: int,
)
    requires
        is_trace(states, keys, results),
        states[0].wf(),
        0 <= i < j < misses(keys, results).len(),
    ensures
        misses(keys, results)[i].descriptor != misses(keys, results)[j].descriptor,
        misses(keys, results)[i].address != misses(keys, results)[j].address,
{
    lemma_requests_are_pending(states, keys, results, i);
    lemma_requests_are_pending(states, keys, results, j);
    let after = states.last();
    let first = misses(keys, results)[i];
    let second = misses(keys, results)[j];
    if first.address == second.address {
        assert(after.slots()[first.address.0 as int].descriptor == Some(first.descriptor));
        assert(after.slots()[second.address.0 as int].descriptor == Some(second.descriptor));
        lemma_requests_differ_in_time(states, keys, results, i, j);
    } else if first.descriptor == second.descriptor {
        assert(after.directory()[first.descriptor] == first.address);
        assert(after.directory()[second.descriptor] == second.address);
    }
}

/// Two requests that a run of requests hands back are for different tiles.
proof fn lemma_requests_differ_in_time(
    states: Seq<VirtualTexture>,
    keys: Seq<TileDescriptor>,
    results: Seq<RequestResult>,
    i: int,
    j: int,
)
    requires
        is_trace(states, keys, results),
        states[0].wf(),
        0 <= i < j < misses(keys, results).len(),
    ensures
        misses(keys, results)[i].descriptor != misses(keys, results)[j].descriptor,
    decreases keys.len(),
{
    if keys.len() > 0 {
        lemma_trace_front(states, keys, results);
        let front_states = states.drop_last();
        let front_keys = keys.drop_last();
        let front_results = results.drop_last();
        let middle = states[keys.len() - 1];
        let key = keys.last();
        let result = results.last();
        let earlier = misses(front_keys, front_results);
        if j < earlier.len() {
            lemma_requests_differ_in_time(front_states, front_keys, front_results, i, j);
        } else {
            lemma_requests_are_pending(front_states, front_keys, front_results, i);
            assert(middle.directory().contains_key(earlier[i].descriptor));
            assert(miss_requests(key, result).len() == 1);
            assert(misses(keys, results)[j] == miss_requests(key, result)[0]);
            assert(middle.requested(key, states.last(), result));
            assert(!middle.directory().contains_key(key));
        }
    }
}

} // verus!
