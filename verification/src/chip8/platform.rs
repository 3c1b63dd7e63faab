//! What the interpreter needs from its surroundings: a screen to draw
//! sprites on, two timers, a keypad and random numbers.
use vstd::prelude::*;
use crate::chip8::data::Word;

verus! {

/// A position on the screen: column `x`, row `y`.
#[derive(Clone, Copy, Debug, PartialEq, Eq, Structural)]
pub struct Point {
    pub x: Word,
    pub y: Word,
}

impl Point {
    /// The position `other` further right and down.
    pub fn add(self, other: Point) -> (p: Point)
        requires
            self.x + other.x <= 255,
            self.y + other.y <= 255,
        ensures
            p.x == self.x + other.x,
            p.y == self.y + other.y,
    {
        Point { x: self.x + other.x, y: self.y + other.y }
    }
}

/// Pixel `x` (from the left, 0 to 7) of the sprite row `row`: the bits
/// from the highest.
pub open spec fn row_pixel(row: u8, x: int) -> bool {
    0 <= x < 8 && (row & (0x80u8 >> (x as u8))) != 0
}

/// A sprite: eight pixels wide, one byte per row.
pub struct Sprite {
    rows: Vec<u8>,
}

impl Sprite {
    /// The sprite's rows, top first.
    pub closed spec fn rows(&self) -> Seq<u8> {
        self.rows@
    }

    /// Pixel `(x, y)` of the sprite is set.
    pub open spec fn pixel(&self, x: int, y: int) -> bool {
        0 <= y < self.rows().len() && row_pixel(self.rows()[y], x)
    }

    pub fn new(rows: Vec<u8>) -> (s: Self)
        ensures
            s.rows() == rows@,
    {
        Sprite { rows }
    }

    /// Number of rows.
    pub fn height(&self) -> (h: usize)
        ensures
            h == self.rows().len(),
    {
        self.rows.len()
    }

    /// Whether pixel `(x, y)` is set.
    pub fn is_pixel_on(&self, x: usize, y: usize) -> (b: bool)
        ensures
            b == self.pixel(x as int, y as int),
    {
        if x < 8 && y < self.rows.len() {
            let row = self.rows[y];
            let xs = x as u8;
            (row & (0x80u8 >> xs)) != 0
        } else {
            false
        }
    }
}

/// A key of the sixteen-key keypad.
#[derive(Clone, Copy, Debug, PartialEq, Eq, Structural)]
pub struct Key(u8);

impl Key {
    #[verifier::type_invariant]
    closed spec fn in_range(&self) -> bool {
        self.0 < 16
    }

    /// The key's number, below 16.
    pub closed spec fn value(&self) -> int {
        self.0 as int % 16
    }

    /// The key numbered `value`, if there is one.
    pub fn try_from(value: u8) -> (r: Result<Key, ()>)
        ensures
            r is Ok <==> value < 16,
            r matches Ok(k) ==> k.value() == value,
    {
        if value < 16 {
            Ok(Key(value))
        } else {
            Err(())
        }
    }

    pub fn as_u8(&self) -> (v: u8)
        ensures
            v == self.value(),
            v < 16,
    {
        proof {
            use_type_invariant(self);
        }
        self.0
    }

    pub fn as_usize(&self) -> (v: usize)
        ensures
            v == self.value(),
            v < 16,
    {
        proof {
            use_type_invariant(self);
        }
        self.0 as usize
    }
}

/// The surroundings an interpreter runs in. Its spec functions say what
/// each call does, as relations between the platform before a call (`self`)
/// and after it (`next`).
pub trait Platform: Sized {
    /// Drawing the rows `rows` (one byte per row, top first) with their
    /// top-left corner at `pos` leads to `next` and reports `collision`.
    spec fn draws(&self, pos: Point, rows: Seq<u8>, next: Self, collision: bool) -> bool;

    /// Clearing the screen leads to `next`.
    spec fn clears(&self, next: Self) -> bool;

    /// The delay timer.
    spec fn delay_timer(&self) -> Word;

    /// Setting the delay timer to `value` leads to `next`.
    spec fn sets_delay(&self, value: Word, next: Self) -> bool;

    /// Setting the sound timer to `value` leads to `next`.
    spec fn sets_sound(&self, value: Word, next: Self) -> bool;

    /// The key numbered `key` is held down.
    spec fn key_is_down(&self, key: int) -> bool;

    /// Taking a key press leads to `next` and gives the key numbered `key`
    /// (or none).
    spec fn takes_key_press(&self, next: Self, key: Option<int>) -> bool;

    /// Drawing a random word may give `word` and lead to `next`.
    spec fn draws_random(&self, next: Self, word: Word) -> bool;

    /// Draws `sprite` with its top-left corner at `pos`, flipping the pixels
    /// it covers; tells whether a pixel that was on was turned off.
    fn draw_sprite(&mut self, pos: Point, sprite: Sprite) -> (collision: bool)
        ensures
            old(self).draws(pos, sprite.rows(), *final(self), collision),
    ;

    /// Turns every pixel off.
    fn clear_screen(&mut self)
        ensures
            old(self).clears(*final(self)),
    ;

    fn get_delay_timer(&self) -> (w: Word)
        ensures
            w == self.delay_timer(),
    ;

    fn set_delay_timer(&mut self, value: Word)
        ensures
            old(self).sets_delay(value, *final(self)),
    ;

    fn set_sound_timer(&mut self, value: Word)
        ensures
            old(self).sets_sound(value, *final(self)),
    ;

    fn is_key_down(&self, key: Key) -> (b: bool)
        ensures
            b == self.key_is_down(key.value()),
    ;

    /// A key that was pressed, if any.
    fn consume_key_press(&mut self) -> (k: Option<Key>)
        ensures
            old(self).takes_key_press(*final(self), match k {
                Some(key) => Some(key.value()),
                None => None,
            }),
    ;

    fn get_random_word(&mut self) -> (w: Word)
        ensures
            old(self).draws_random(*final(self), w),
    ;
}

} // verus!
