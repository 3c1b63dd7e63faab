//! An interpreter whose platform is kept in memory: a frame buffer, the
//! two timers, the keypad state and a random number source.
use vstd::prelude::*;
use core::time::Duration;
use crate::chip8::data::Word;
use crate::chip8::image::Image;
use crate::chip8::interpreter::{Interpreter, SCREEN_HEIGHT, SCREEN_WIDTH};
use crate::chip8::interpreter;
use crate::chip8::platform::{row_pixel, Key, Platform, Point, Sprite};
use crate::chip8::Error;

verus! {

/// The screen: `SCREEN_HEIGHT` rows of `SCREEN_WIDTH` pixels, `true` when lit.
pub struct FrameBuffer([[bool; SCREEN_WIDTH]; SCREEN_HEIGHT]);

impl View for FrameBuffer {
    type V = Seq<Seq<bool>>;

    /// The rows of the screen, top first.
    closed spec fn view(&self) -> Seq<Seq<bool>> {
        self.0@.map_values(|row: [bool; SCREEN_WIDTH]| row@)
    }
}

/// The pixel in column `x` of row `y` of the screen `f`.
pub open spec fn lit(f: Seq<Seq<bool>>, x: int, y: int) -> bool {
    f[y][x]
}

impl Default for FrameBuffer {
    fn default() -> (fb: Self)
        ensures
            fb@.len() == SCREEN_HEIGHT,
            forall|y: int| 0 <= y < SCREEN_HEIGHT ==> #[trigger] fb@[y].len() == SCREEN_WIDTH,
            forall|x: int, y: int|
                0 <= x < SCREEN_WIDTH && 0 <= y < SCREEN_HEIGHT ==> !#[trigger] lit(fb@, x, y),
    {
        let row = [false; 64];
        let rows = [row; 32];
        proof {
            broadcast use vstd::array::axiom_spec_array_fill_for_copy_type;

            assert(row == vstd::array::spec_array_fill_for_copy_type::<bool, 64>(false));
            assert(rows == vstd::array::spec_array_fill_for_copy_type::<[bool; 64], 32>(row));
        }
        let fb = FrameBuffer(rows);
        proof {

            assert forall|y: int| 0 <= y < SCREEN_HEIGHT implies #[trigger] fb@[y] == row@ by {
                assert(rows@[y] == row);
            }
            assert forall|x: int, y: int| 0 <= x < SCREEN_WIDTH && 0 <= y < SCREEN_HEIGHT implies !#[trigger] lit(fb@, x, y) by {
                assert(fb@[y] == row@);
                assert(!row@[x]);
            }
        }
        fb
    }
}

impl FrameBuffer {
    /// The screen has `SCREEN_HEIGHT` rows of `SCREEN_WIDTH` pixels.
    pub proof fn lemma_shape(fb: &FrameBuffer)
        ensures
            fb@.len() == SCREEN_HEIGHT,
            forall|y: int| 0 <= y < SCREEN_HEIGHT ==> #[trigger] fb@[y].len() == SCREEN_WIDTH,
    {
    }

    /// Whether `(x, y)` is on the screen.
    pub fn in_bounds(&self, x: usize, y: usize) -> (b: bool)
        ensures
            b == (x < SCREEN_WIDTH && y < SCREEN_HEIGHT),
    {
        x < SCREEN_WIDTH && y < SCREEN_HEIGHT
    }

    /// The rows of the screen, top first.
    pub fn iter_rows(&self) -> (rows: std::slice::Iter<'_, [bool; SCREEN_WIDTH]>)
        ensures
            vstd::std_specs::iter::IteratorSpec::remaining(&rows).len() == SCREEN_HEIGHT,
            forall|y: int| 0 <= y < SCREEN_HEIGHT ==> (*#[trigger] vstd::std_specs::iter::IteratorSpec::remaining(&rows)[y])@ == self@[y],
    {
        let rows = self.0.as_slice().iter();
        proof {
            broadcast use vstd::std_specs::slice::axiom_spec_slice_iter;
        }
        rows
    }

    /// Whether the pixel in column `x` of row `y` is lit.
    pub fn get(&self, x: usize, y: usize) -> (b: bool)
        requires
            x < SCREEN_WIDTH,
            y < SCREEN_HEIGHT,
        ensures
            b == lit(self@, x as int, y as int),
    {
        self.0[y][x]
    }
}


/// A source of random words: any closure that returns one.
pub trait RandomNumberGenerator: FnMut() -> Word {}

impl<R: FnMut() -> Word> RandomNumberGenerator for R {}

/// Calls the random number source. Nothing is known of the word it gives.
#[verifier::external_body]
fn next_random_word<R: RandomNumberGenerator>(rand: &mut R) -> Word {
    rand()
}

/// A screen with every pixel off.
pub open spec fn blank_screen() -> Seq<Seq<bool>> {
    Seq::new(32, |y: int| Seq::new(64, |x: int| false))
}

/// The sprite covers the screen pixel `(x, y)` when drawn at `pos` (taken
/// modulo the screen size).
pub open spec fn covered(pos: Point, rows: Seq<u8>, x: int, y: int) -> bool {
    let dy = y - pos.y as int % 32;
    0 <= dy < rows.len() && row_pixel(rows[dy], x - pos.x as int % 64)
}

/// The screen after drawing: every covered pixel flipped.
pub open spec fn drawn(f: Seq<Seq<bool>>, pos: Point, rows: Seq<u8>) -> Seq<Seq<bool>> {
    Seq::new(32, |y: int| Seq::new(64, |x: int| f[y][x] != covered(pos, rows, x, y)))
}

/// Drawing turns off a pixel that was lit.
pub open spec fn collides(f: Seq<Seq<bool>>, pos: Point, rows: Seq<u8>) -> bool {
    exists|x: int, y: int| 0 <= x < 64 && 0 <= y < 32 && covered(pos, rows, x, y) && #[trigger] f[y][x]
}

/// Drawing the same sprite twice at the same place leaves the screen as it
/// was; the second drawing turns a pixel off exactly when the sprite covers
/// a pixel that was off before the first.
pub proof fn lemma_draw_twice(f: Seq<Seq<bool>>, pos: Point, rows: Seq<u8>)
    requires
        f.len() == 32,
        forall|y: int| 0 <= y < 32 ==> #[trigger] f[y].len() == 64,
    ensures
        drawn(drawn(f, pos, rows), pos, rows) == f,
        collides(drawn(f, pos, rows), pos, rows) == exists|x: int, y: int|
            0 <= x < 64 && 0 <= y < 32 && #[trigger] covered(pos, rows, x, y) && !f[y][x],
{
    let once = drawn(f, pos, rows);
    let twice = drawn(once, pos, rows);
    assert forall|y: int| 0 <= y < 32 implies #[trigger] twice[y] =~= f[y] by {}
    assert(twice =~= f);
    if collides(once, pos, rows) {
        let (x, y) = choose|x: int, y: int| 0 <= x < 64 && 0 <= y < 32 && covered(pos, rows, x, y) && #[trigger] once[y][x];
        assert(!f[y][x]);
    }
    if exists|x: int, y: int| 0 <= x < 64 && 0 <= y < 32 && #[trigger] covered(pos, rows, x, y) && !f[y][x] {
        let (x, y) = choose|x: int, y: int| 0 <= x < 64 && 0 <= y < 32 && #[trigger] covered(pos, rows, x, y) && !f[y][x];
        assert(once[y][x]);
    }
}

pub struct ManagedPlatform<R: RandomNumberGenerator> {
    rand: R,
    frame_buffer: FrameBuffer,
    delay_timer: Word,
    sound_timer: Word,
    keys: [bool; 16],
}

impl<R: RandomNumberGenerator> ManagedPlatform<R> {
    /// The screen.
    pub closed spec fn screen(&self) -> Seq<Seq<bool>> {
        self.frame_buffer@
    }

    pub closed spec fn delay(&self) -> Word {
        self.delay_timer
    }

    pub closed spec fn sound(&self) -> Word {
        self.sound_timer
    }

    /// Which keys are down.
    pub closed spec fn key_states(&self) -> Seq<bool> {
        self.keys@
    }

    /// The random number source.
    pub closed spec fn source(&self) -> R {
        self.rand
    }

    /// `next` has the same timers, keys and random number source.
    pub open spec fn keeps_all_but_screen(&self, next: Self) -> bool {
        &&& next.delay() == self.delay()
        &&& next.sound() == self.sound()
        &&& next.key_states() == self.key_states()
        &&& next.source() == self.source()
    }
}

impl<R: RandomNumberGenerator> Platform for ManagedPlatform<R> {
    open spec fn draws(&self, pos: Point, rows: Seq<u8>, next: Self, collision: bool) -> bool {
        &&& next.screen() == drawn(self.screen(), pos, rows)
        &&& collision == collides(self.screen(), pos, rows)
        &&& self.keeps_all_but_screen(next)
    }

    open spec fn clears(&self, next: Self) -> bool {
        next.screen() == blank_screen() && self.keeps_all_but_screen(next)
    }

    open spec fn delay_timer(&self) -> Word {
        self.delay()
    }

    open spec fn sets_delay(&self, value: Word, next: Self) -> bool {
        &&& next.delay() == value
        &&& next.screen() == self.screen()
        &&& next.sound() == self.sound()
        &&& next.key_states() == self.key_states()
        &&& next.source() == self.source()
    }

    open spec fn sets_sound(&self, value: Word, next: Self) -> bool {
        &&& next.sound() == value
        &&& next.screen() == self.screen()
        &&& next.delay() == self.delay()
        &&& next.key_states() == self.key_states()
        &&& next.source() == self.source()
    }

    open spec fn key_is_down(&self, key: int) -> bool {
        self.key_states()[key]
    }

    /// The lowest-numbered key held down is taken; nothing changes.
    open spec fn takes_key_press(&self, next: Self, key: Option<int>) -> bool {
        &&& next == *self
        &&& match key {
            Some(k) => 0 <= k < 16 && self.key_states()[k] && forall|j: int|
                0 <= j < k ==> !#[trigger] self.key_states()[j],
            None => forall|j: int| 0 <= j < 16 ==> !#[trigger] self.key_states()[j],
        }
    }

    /// Any word may come; only the random number source may change.
    open spec fn draws_random(&self, next: Self, word: Word) -> bool {
        &&& next.screen() == self.screen()
        &&& next.delay() == self.delay()
        &&& next.sound() == self.sound()
        &&& next.key_states() == self.key_states()
    }

    fn draw_sprite(&mut self, pos: Point, sprite: Sprite) -> (collision: bool)
        ensures
            final(self).screen() == drawn(old(self).screen(), pos, sprite.rows()),
            collision == collides(old(self).screen(), pos, sprite.rows()),
            final(self).delay() == old(self).delay(),
            final(self).sound() == old(self).sound(),
            final(self).key_states() == old(self).key_states(),
    {
        let ghost f0 = self.frame_buffer@;
        let px = (pos.x % 64) as usize;
        let py = (pos.y % 32) as usize;
        let h = sprite.height();
        let mut collision = false;
        let mut y: usize = 0;
        while y < h && py + y < 32
            invariant
                px == pos.x as int % 64,
                py == pos.y as int % 32,
                h == sprite.rows().len(),
                y <= h,
                py + y <= 32,
                self.frame_buffer@.len() == 32,
                forall|yy: int| 0 <= yy < 32 ==> #[trigger] self.frame_buffer@[yy].len() == 64,
                forall|xx: int, yy: int| 0 <= xx < 64 && 0 <= yy < 32 ==> #[trigger] self.frame_buffer@[yy][xx]
                    == (f0[yy][xx] != (covered(pos, sprite.rows(), xx, yy) && yy < py + y)),
                collision == exists|xx: int, yy: int| 0 <= xx < 64 && 0 <= yy < py + y && covered(pos, sprite.rows(), xx, yy) && #[trigger] f0[yy][xx],
                self.delay_timer == old(self).delay_timer,
                self.sound_timer == old(self).sound_timer,
                self.keys == old(self).keys,
                self.rand == old(self).rand,
            decreases h - y,
        {
            let mut x: usize = 0;
            while x < 8
                invariant
                    px == pos.x as int % 64,
                    py == pos.y as int % 32,
                    h == sprite.rows().len(),
                    y < h,
                    py + y < 32,
                    x <= 8,
                    self.frame_buffer@.len() == 32,
                    forall|yy: int| 0 <= yy < 32 ==> #[trigger] self.frame_buffer@[yy].len() == 64,
                    forall|xx: int, yy: int| 0 <= xx < 64 && 0 <= yy < 32 ==> #[trigger] self.frame_buffer@[yy][xx]
                        == (f0[yy][xx] != (covered(pos, sprite.rows(), xx, yy) && (yy < py + y || (yy == py + y && xx < px + x)))),
                    collision == exists|xx: int, yy: int| 0 <= xx < 64 && 0 <= yy < 32 && (yy < py + y || (yy == py + y && xx < px + x)) && covered(pos, sprite.rows(), xx, yy) && #[trigger] f0[yy][xx],
                    self.delay_timer == old(self).delay_timer,
                    self.sound_timer == old(self).sound_timer,
                    self.keys == old(self).keys,
                    self.rand == old(self).rand,
                decreases 8 - x,
            {
                if px + x < 64 && sprite.is_pixel_on(x, y) {
                    let ghost fb = self.frame_buffer@;
                    let mut row = self.frame_buffer.0[py + y];
                    let old_pixel = row[px + x];
                    assert(old_pixel == fb[py + y][px + x]);
                    collision = collision || old_pixel;
                    row[px + x] = !old_pixel;
                    self.frame_buffer.0[py + y] = row;
                    proof {
                        assert(self.frame_buffer@ =~= fb.update(
                            py + y,
                            fb[py + y as int].update(px + x, !old_pixel),
                        ));
                        assert(covered(pos, sprite.rows(), px + x, py + y));
                        assert(old_pixel == f0[py + y][px + x]);
                    }
                }
                x = x + 1;
            }
            y = y + 1;
        }
        proof {
            let d = drawn(f0, pos, sprite.rows());
            assert forall|yy: int| 0 <= yy < 32 implies #[trigger] self.frame_buffer@[yy] =~= d[yy] by {
                assert forall|xx: int| 0 <= xx < 64 implies self.frame_buffer@[yy][xx] == d[yy][xx] by {
                    assert(self.frame_buffer@[yy][xx] == (f0[yy][xx] != (covered(pos, sprite.rows(), xx, yy) && yy < py + y)));
                }
            }
            assert(self.frame_buffer@ =~= d);
        }
        collision
    }

    fn clear_screen(&mut self)
        ensures
            forall|x: int, y: int| 0 <= x < SCREEN_WIDTH && 0 <= y < SCREEN_HEIGHT ==> !#[trigger] lit(final(self).screen(), x, y),
            final(self).delay() == old(self).delay(),
            final(self).sound() == old(self).sound(),
            final(self).key_states() == old(self).key_states(),
    {
        let fb = FrameBuffer::default();
        proof {
            assert forall|y: int| 0 <= y < 32 implies #[trigger] fb@[y] =~= blank_screen()[y] by {
                assert forall|x: int| 0 <= x < 64 implies fb@[y][x] == false by {
                    assert(!lit(fb@, x, y));
                }
            }
            assert(fb@ =~= blank_screen());
        }
        self.frame_buffer = fb;
    }

    fn get_delay_timer(&self) -> (w: Word)
        ensures
            w == self.delay(),
    {
        self.delay_timer
    }

    fn set_delay_timer(&mut self, value: Word)
        ensures
            final(self).delay() == value,
            final(self).sound() == old(self).sound(),
            final(self).key_states() == old(self).key_states(),
            final(self).screen() == old(self).screen(),
    {
        self.delay_timer = value;
    }

    fn set_sound_timer(&mut self, value: Word)
        ensures
            final(self).sound() == value,
            final(self).delay() == old(self).delay(),
            final(self).key_states() == old(self).key_states(),
            final(self).screen() == old(self).screen(),
    {
        self.sound_timer = value;
    }

    fn is_key_down(&self, key: Key) -> (b: bool)
        ensures
            b == self.key_states()[key.value()],
    {
        self.keys[key.as_usize()]
    }

    fn consume_key_press(&mut self) -> (k: Option<Key>)
        ensures
            *final(self) == *old(self),
            k matches Some(key) ==> old(self).key_states()[key.value()] && forall|j: int|
                0 <= j < key.value() ==> !old(self).key_states()[j],
            k is None ==> forall|j: int| 0 <= j < 16 ==> !old(self).key_states()[j],
    {
        let mut index: usize = 0;
        while index < 16
            invariant
                index <= 16,
                forall|j: int| 0 <= j < index ==> !self.keys@[j],
            decreases 16 - index,
        {
            if self.keys[index] {
                match Key::try_from(index as u8) {
                    Ok(key) => {
                        return Some(key);
                    },
                    Err(_) => {},
                }
            }
            index = index + 1;
        }
        None
    }

    fn get_random_word(&mut self) -> (w: Word)
        ensures
            final(self).screen() == old(self).screen(),
            final(self).delay() == old(self).delay(),
            final(self).sound() == old(self).sound(),
            final(self).key_states() == old(self).key_states(),
    {
        next_random_word(&mut self.rand)
    }
}

impl<R: RandomNumberGenerator> ManagedPlatform<R> {
    fn new(rand: R) -> (p: Self)
        ensures
            p.rand == rand,
            p.delay_timer == 0,
            p.sound_timer == 0,
            forall|i: int| 0 <= i < 16 ==> !#[trigger] p.keys@[i],
            forall|x: int, y: int| 0 <= x < SCREEN_WIDTH && 0 <= y < SCREEN_HEIGHT ==> !#[trigger] lit(p.frame_buffer@, x, y),
    {
        Self { rand, frame_buffer: FrameBuffer::default(), delay_timer: 0, sound_timer: 0, keys: [false; 16] }
    }
}


/// The whole milliseconds in a duration, as `Duration::as_millis` counts them.
pub uninterp spec fn duration_millis(duration: Duration) -> u128;

/// Reads the whole milliseconds in `duration` (`Duration::as_millis`): the
/// count depends on the duration alone.
#[verifier::external_body]
fn whole_millis(duration: &Duration) -> (m: u128)
    ensures
        m == duration_millis(*duration),
{
    duration.as_millis()
}

/// An operation takes this many milliseconds.
pub const OPERATION_MILLIS: u128 = 2;

/// The delay timer drops by one every this many operations: a tick of it
/// lasts 16666667 ns, and an operation 2 ms.
pub const OPERATIONS_PER_DELAY_TICK: u128 = 8;

/// The machine together with its platform.
pub type Snapshot<R> = (interpreter::MachineState, ManagedPlatform<R>);

/// The delay timer's tick after the instruction numbered `i` (from 0) of a
/// run: after every eighth instruction, starting with the first, a delay
/// timer above zero drops by one; nothing else changes.
pub open spec fn ticked<R: RandomNumberGenerator>(i: int, p: ManagedPlatform<R>, q: ManagedPlatform<R>) -> bool {
    if i % 8 == 0 && p.delay() > 0 {
        &&& q.delay() == p.delay() - 1
        &&& q.screen() == p.screen()
        &&& q.sound() == p.sound()
        &&& q.key_states() == p.key_states()
        &&& q.source() == p.source()
    } else {
        q == p
    }
}

/// `b` follows `a` as the instruction numbered `i` of a run: the
/// instruction could run and ran as `interpreter::steps` says, and the delay
/// timer ticked.
pub open spec fn run_step<R: RandomNumberGenerator>(i: int, a: Snapshot<R>, b: Snapshot<R>) -> bool {
    &&& interpreter::can_run(a.0)
    &&& exists|mid: ManagedPlatform<R>|
        #[trigger] interpreter::steps(a.0, a.1, b.0, mid, Ok::<(), Error>(())) && ticked(i, mid, b.1)
}

/// Each snapshot of `trace` follows the one before as the next instruction
/// of a run.
pub open spec fn is_run<R: RandomNumberGenerator>(trace: Seq<Snapshot<R>>) -> bool {
    &&& trace.len() >= 1
    &&& forall|i: int| 0 <= i < trace.len() - 1 ==> run_step(i, #[trigger] trace[i], trace[i + 1])
}

/// Running for `millis` milliseconds took the machine and its platform from
/// `a` to `b` and ended with `r`: with `Ok`, after `millis / 2` instructions
/// that ran; with `InvalidState`, after at most that many, at an instruction
/// that cannot run; with `UnknownOpCode`, after at most that many, at an
/// unknown instruction, which the program counter has gone past.
pub open spec fn simulated<R: RandomNumberGenerator>(
    a: Snapshot<R>,
    b: Snapshot<R>,
    millis: int,
    r: Result<(), Error>,
) -> bool {
    &&& r is Ok ==> exists|trace: Seq<Snapshot<R>>|
        #[trigger] is_run(trace) && trace.len() == millis / OPERATION_MILLIS as int + 1 && trace[0]
            == a && trace.last() == b
    &&& r == Err::<(), Error>(Error::InvalidState) ==> exists|trace: Seq<Snapshot<R>>|
        #[trigger] is_run(trace) && trace.len() <= millis / OPERATION_MILLIS as int && trace[0] == a
            && trace.last() == b && !interpreter::can_run(b.0)
    &&& r matches Err(Error::UnknownOpCode(code)) ==> exists|trace: Seq<Snapshot<R>>|
        #[trigger] is_run(trace) && trace.len() <= millis / OPERATION_MILLIS as int && trace[0] == a
            && interpreter::can_run(trace.last().0) && !interpreter::known_opcode(
            interpreter::opcode_at(trace.last().0),
        ) && code.0 == interpreter::opcode_at(trace.last().0) && b.0 == interpreter::advanced(
            trace.last().0,
        ) && b.1 == trace.last().1
}

proof fn lemma_extend_run<R: RandomNumberGenerator>(trace: Seq<Snapshot<R>>, s: Snapshot<R>)
    requires
        is_run(trace),
        run_step(trace.len() - 1, trace.last(), s),
    ensures
        is_run(trace.push(s)),
        trace.push(s)[0] == trace[0],
        trace.push(s).last() == s,
{
    let t2 = trace.push(s);
    assert forall|k: int| 0 <= k < t2.len() - 1 implies run_step(k, #[trigger] t2[k], t2[k + 1]) by {
        if k < trace.len() - 1 {
            assert(t2[k] == trace[k] && t2[k + 1] == trace[k + 1]);
        } else {
            assert(t2[k] == trace.last());
        }
    }
}

/// A CHIP-8 machine on the in-memory platform.
pub struct ManagedInterpreter<R: RandomNumberGenerator> {
    inner: Interpreter<ManagedPlatform<R>>,
}

impl<R: RandomNumberGenerator> ManagedInterpreter<R> {
    /// The machine's state.
    pub closed spec fn machine(&self) -> interpreter::MachineState {
        self.inner.state()
    }

    /// The platform: screen, timers, keys and random number source.
    pub closed spec fn platform(&self) -> ManagedPlatform<R> {
        self.inner.spec_platform()
    }

    /// The machine with its platform.
    pub open spec fn snapshot(&self) -> Snapshot<R> {
        (self.machine(), self.platform())
    }

    /// The screen.
    pub open spec fn screen(&self) -> Seq<Seq<bool>> {
        self.platform().screen()
    }

    /// Which keys are down.
    pub open spec fn keys(&self) -> Seq<bool> {
        self.platform().key_states()
    }

    /// The delay timer.
    pub open spec fn delay(&self) -> Word {
        self.platform().delay()
    }

    /// The machine's memory always has 4096 bytes, and its index register and
    /// program counter lie in it.
    pub proof fn lemma_machine_valid(&self)
        ensures
            self.machine().memory.len() == 4096,
            self.machine().registers.len() == 16,
            0 <= self.machine().index < 4096,
            0 <= self.machine().pc < 4096,
    {
        self.inner.lemma_state_valid();
    }

    /// A machine with the image loaded into zeroed memory, the program counter
    /// at its entry point, registers zero, call stack empty; the screen blank,
    /// the timers zero and no key down.
    pub fn new<I: Image>(image: I, rand: R) -> (m: Self)
        ensures
            m.machine().memory == image.loaded(Seq::new(4096, |i: int| 0u8)),
            m.machine().pc == image.entry(),
            m.machine().memory.len() == 4096,
            m.machine().index == 0,
            m.machine().registers == Seq::new(16, |i: int| 0u8),
            m.machine().stack == Seq::<int>::empty(),
            m.machine().last_key == None::<int>,
            m.delay() == 0,
            m.platform().sound() == 0,
            m.platform().source() == rand,
            forall|i: int| 0 <= i < 16 ==> !#[trigger] m.keys()[i],
            forall|x: int, y: int| 0 <= x < SCREEN_WIDTH && 0 <= y < SCREEN_HEIGHT ==> !#[trigger] lit(m.screen(), x, y),
    {
        Self::new_with_durations(image, rand)
    }

    /// As `new`.
    pub fn new_with_durations<I: Image>(image: I, rand: R) -> (m: Self)
        ensures
            m.machine().memory == image.loaded(Seq::new(4096, |i: int| 0u8)),
            m.machine().pc == image.entry(),
            m.machine().memory.len() == 4096,
            m.machine().index == 0,
            m.machine().registers == Seq::new(16, |i: int| 0u8),
            m.machine().stack == Seq::<int>::empty(),
            m.machine().last_key == None::<int>,
            m.delay() == 0,
            m.platform().sound() == 0,
            m.platform().source() == rand,
            forall|i: int| 0 <= i < 16 ==> !#[trigger] m.keys()[i],
            forall|x: int, y: int| 0 <= x < SCREEN_WIDTH && 0 <= y < SCREEN_HEIGHT ==> !#[trigger] lit(m.screen(), x, y),
    {
        Self { inner: Interpreter::new(image, ManagedPlatform::new(rand)) }
    }

    /// Runs the instruction at the program counter (see
    /// `Interpreter::run_next_instruction`) on the in-memory platform.
    pub fn simulate_one_instruction(&mut self) -> (r: Result<(), Error>)
        requires
            interpreter::can_run(old(self).machine()),
        ensures
            interpreter::steps(old(self).machine(), old(self).platform(), final(self).machine(), final(self).platform(), r),
    {
        self.inner.run_next_instruction()
    }

    /// Whether the next instruction can run (see `Interpreter::can_run_next`).
    pub fn can_run_next(&self) -> (r: (bool, Option<crate::chip8::data::OpCode>))
        ensures
            r.0 == interpreter::can_run(self.machine()),
            self.machine().pc < 4095 ==> r.1 == Some(crate::chip8::data::OpCode(interpreter::opcode_at(self.machine()))),
            self.machine().pc >= 4095 ==> r.1 is None,
    {
        self.inner.can_run_next()
    }

    /// Runs the machine for `duration`, counted in whole milliseconds: see
    /// `simulate_millis`.
    pub fn simulate_duration(&mut self, duration: Duration) -> (r: Result<(), Error>)
        ensures
            simulated(old(self).snapshot(), final(self).snapshot(), duration_millis(duration) as int, r),
    {
        let millis = whole_millis(&duration);
        self.simulate_millis(millis)
    }

    /// Runs the machine for `millis` milliseconds: `millis / 2` instructions,
    /// the delay timer (when above zero) dropping by one after every eighth
    /// of them, starting with the first. Stops at the first instruction that
    /// cannot run, with `InvalidState`, or that is unknown, with
    /// `UnknownOpCode` (the program counter past it).
    pub fn simulate_millis(&mut self, millis: u128) -> (r: Result<(), Error>)
        ensures
            simulated(old(self).snapshot(), final(self).snapshot(), millis as int, r),
    {
        let max_iterations = millis / OPERATION_MILLIS;
        let ghost mut trace: Seq<Snapshot<R>> = seq![self.snapshot()];
        let mut i: u128 = 0;
        while i < max_iterations
            invariant
                max_iterations == millis / OPERATION_MILLIS,
                i <= max_iterations,
                is_run(trace),
                trace.len() == i + 1,
                trace[0] == old(self).snapshot(),
                trace.last() == self.snapshot(),
            decreases max_iterations - i,
        {
            let (ok, code) = self.inner.can_run_next();
            if !ok {
                return Err(Error::InvalidState);
            }
            let ghost before = self.snapshot();
            match self.simulate_one_instruction() {
                Ok(()) => {},
                Err(e) => {
                    return Err(e);
                },
            }
            let ghost mid = self.platform();
            if i % OPERATIONS_PER_DELAY_TICK == 0 && self.inner.platform().delay_timer > 0 {
                let platform = self.inner.platform_mut();
                platform.delay_timer = platform.delay_timer - 1;
            }
            proof {
                assert(interpreter::steps(before.0, before.1, self.machine(), mid, Ok::<(), Error>(())));
                assert(ticked(i as int, mid, self.platform()));
                assert(before == trace.last());
                assert(interpreter::can_run(before.0));
                let after = self.snapshot();
                assert(interpreter::steps(before.0, before.1, after.0, mid, Ok::<(), Error>(())));
                assert(ticked(i as int, mid, after.1));
                assert(run_step(i as int, before, after));
                lemma_extend_run(trace, self.snapshot());
                trace = trace.push(self.snapshot());
            }
            i = i + 1;
        }
        Ok(())
    }

    pub fn frame_buffer(&self) -> (fb: &FrameBuffer)
        ensures
            fb@ == self.screen(),
    {
        &self.inner.platform().frame_buffer
    }

    /// Presses (`is_down`) or releases `key`.
    pub fn set_key_down(&mut self, key: Key, is_down: bool)
        ensures
            final(self).keys() == old(self).keys().update(key.value(), is_down),
            final(self).machine() == old(self).machine(),
            final(self).screen() == old(self).screen(),
            final(self).delay() == old(self).delay(),
            final(self).platform().sound() == old(self).platform().sound(),
            final(self).platform().source() == old(self).platform().source(),
    {
        let k = key.as_usize();
        let platform = self.inner.platform_mut();
        platform.keys[k] = is_down;
    }
}

} // verus!
