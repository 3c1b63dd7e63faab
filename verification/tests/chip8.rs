use coursework::chip8::data::{Address, Nibble, OpCode};
use coursework::chip8::image::Image;
use coursework::chip8::interpreter::{Interpreter, Operation};
use coursework::chip8::managed_interpreter::{FrameBuffer, ManagedInterpreter};
use coursework::chip8::platform::{Key, Platform, Point, Sprite};
use coursework::chip8::Error;
use vstd::prelude::int;
use vstd::seq::Seq;

struct Rom(Vec<u8>);

impl Image for Rom {
    // A specification item, which a running program never calls.
    fn loaded(&self, _memory: Seq<u8>) -> Seq<u8> {
        unreachable!()
    }

    // A specification item, which a running program never calls.
    fn entry(&self) -> int {
        unreachable!()
    }

    fn load_into_memory(&self, memory: &mut [u8; 4096]) {
        memory[0x200..0x200 + self.0.len()].copy_from_slice(&self.0);
    }

    fn entry_point(&self) -> Address {
        Address::new(0x200)
    }
}

fn rom(words: &[u16]) -> Rom {
    Rom(words.iter().flat_map(|w| [(w >> 8) as u8, (w & 0xFF) as u8]).collect())
}

#[derive(Default)]
struct Recorder {
    delay: u8,
    sound: u8,
    cleared: usize,
    keys: [bool; 16],
    pressed: Option<u8>,
    random: u8,
    collision: bool,
    drawn: Vec<(u8, u8, usize)>,
}

// The relations are specification items, which a running program never calls.
impl Platform for Recorder {
    fn draws(&self, _pos: Point, _rows: Seq<u8>, _next: Self, _collision: bool) -> bool {
        unreachable!()
    }
    fn clears(&self, _next: Self) -> bool {
        unreachable!()
    }
    fn delay_timer(&self) -> u8 {
        unreachable!()
    }
    fn sets_delay(&self, _value: u8, _next: Self) -> bool {
        unreachable!()
    }
    fn sets_sound(&self, _value: u8, _next: Self) -> bool {
        unreachable!()
    }
    fn key_is_down(&self, _key: int) -> bool {
        unreachable!()
    }
    fn takes_key_press(&self, _next: Self, _key: Option<int>) -> bool {
        unreachable!()
    }
    fn draws_random(&self, _next: Self, _word: u8) -> bool {
        unreachable!()
    }
    fn draw_sprite(&mut self, pos: Point, sprite: Sprite) -> bool {
        self.drawn.push((pos.x, pos.y, sprite.height()));
        self.collision
    }
    fn clear_screen(&mut self) {
        self.cleared += 1;
    }
    fn get_delay_timer(&self) -> u8 {
        self.delay
    }
    fn set_delay_timer(&mut self, value: u8) {
        self.delay = value;
    }
    fn set_sound_timer(&mut self, value: u8) {
        self.sound = value;
    }
    fn is_key_down(&self, key: Key) -> bool {
        self.keys[key.as_usize()]
    }
    fn consume_key_press(&mut self) -> Option<Key> {
        self.pressed.take().map(|k| Key::try_from(k).unwrap())
    }
    fn get_random_word(&mut self) -> u8 {
        self.random
    }
}

fn run(words: &[u16], platform: Recorder, steps: usize) -> Interpreter<Recorder> {
    let mut interp = Interpreter::new(rom(words), platform);
    for _ in 0..steps {
        interp.run_next_instruction().unwrap();
    }
    interp
}

#[test]
fn decoding() {
    assert!(matches!(Operation::try_from(OpCode(0x00E0)), Ok(Operation::ClearScreen)));
    assert!(matches!(Operation::try_from(OpCode(0x00EE)), Ok(Operation::Return)));
    match Operation::try_from(OpCode(0x6A12)) {
        Ok(Operation::SetRegister(x, w)) => {
            assert_eq!(x.as_u8(), 0xA);
            assert_eq!(w, 0x12);
        }
        _ => panic!("wrong decoding"),
    }
    match Operation::try_from(OpCode(0x1234)) {
        Ok(Operation::Jump(a)) => assert_eq!(a.as_usize(), 0x234),
        _ => panic!("wrong decoding"),
    }
    match Operation::try_from(OpCode(0xD12F)) {
        Ok(Operation::Draw(x, y, n)) => {
            assert_eq!((x.as_u8(), y.as_u8(), n.as_u8()), (1, 2, 0xF));
        }
        _ => panic!("wrong decoding"),
    }
    assert!(matches!(Operation::try_from(OpCode(0x8AB4)), Ok(Operation::AddRegister(..))));
    assert!(matches!(Operation::try_from(OpCode(0x8ABE)), Ok(Operation::ShiftLeft(..))));
    assert!(matches!(Operation::try_from(OpCode(0xF165)), Ok(Operation::ReadMemory(..))));
    assert!(matches!(Operation::try_from(OpCode(0xE3A1)), Ok(Operation::SkipIfKeyUp(..))));
    assert!(Operation::try_from(OpCode(0x0000)).is_err());
    assert!(Operation::try_from(OpCode(0x5121)).is_err());
    assert!(Operation::try_from(OpCode(0x8AB8)).is_err());
    assert!(Operation::try_from(OpCode(0xF129)).is_err());
}

#[test]
fn addresses_wrap() {
    assert_eq!(Address::new(4095).add(2).as_usize(), 1);
    assert_eq!(Address::new(0).add(-2).as_usize(), 4094);
    assert_eq!(Address::new(5000).as_usize(), 904);
    assert_eq!(Nibble::new(0x3C).as_u8(), 0xC);
    assert_eq!(Nibble::new(7).as_offset(), 7);
}

#[test]
fn opcode_parts() {
    let code = OpCode::from_bytes(0xAB, 0xCD);
    assert_eq!(code, OpCode(0xABCD));
    assert_eq!(code.extract_nibble(3).as_u8(), 0xA);
    assert_eq!(code.extract_nibble(2).as_u8(), 0xB);
    assert_eq!(code.extract_nibble(1).as_u8(), 0xC);
    assert_eq!(code.extract_nibble(0).as_u8(), 0xD);
    assert_eq!(code.extract_word(0), 0xCD);
    assert_eq!(code.extract_word(1), 0xAB);
    assert_eq!(code.extract_address().as_usize(), 0xBCD);
}

#[test]
fn keys() {
    assert!(Key::try_from(16).is_err());
    assert_eq!(Key::try_from(15).unwrap().as_u8(), 15);
}

#[test]
fn set_add_and_delay_timer() {
    let interp = run(&[0x6005, 0x7003, 0xF015], Recorder::default(), 3);
    assert_eq!(interp.platform().delay, 8);
}

#[test]
fn add_registers_with_carry() {
    let interp = run(&[0x60FF, 0x6103, 0x8014, 0xFF15], Recorder::default(), 4);
    assert_eq!(interp.platform().delay, 1);
    let interp = run(&[0x60FF, 0x6103, 0x8014, 0xF015], Recorder::default(), 4);
    assert_eq!(interp.platform().delay, 2);
}

#[test]
fn subtract_registers_with_borrow() {
    let interp = run(&[0x6005, 0x6107, 0x8015, 0xF015], Recorder::default(), 4);
    assert_eq!(interp.platform().delay, 254);
    let interp = run(&[0x6005, 0x6107, 0x8015, 0xFF15], Recorder::default(), 4);
    assert_eq!(interp.platform().delay, 0);
    let interp = run(&[0x6005, 0x6107, 0x8017, 0xF015], Recorder::default(), 4);
    assert_eq!(interp.platform().delay, 2);
}

#[test]
fn shifts() {
    let interp = run(&[0x6181, 0x801E, 0xF015], Recorder::default(), 3);
    assert_eq!(interp.platform().delay, 2);
    let interp = run(&[0x6081, 0x801E, 0xFF15], Recorder::default(), 3);
    assert_eq!(interp.platform().delay, 1);
    let interp = run(&[0x6181, 0x6003, 0x8016, 0xFF15], Recorder::default(), 4);
    assert_eq!(interp.platform().delay, 1);
}

#[test]
fn bitwise_operations_clear_vf() {
    let interp = run(&[0x600C, 0x610A, 0x6F09, 0x8011, 0xF015, 0xFF15], Recorder::default(), 5);
    assert_eq!(interp.platform().delay, 0x0E);
    let interp = run(&[0x600C, 0x610A, 0x6F09, 0x8011, 0xF015, 0xFF15], Recorder::default(), 6);
    assert_eq!(interp.platform().delay, 0);
}

#[test]
fn call_and_return() {
    let interp = run(&[0x2208, 0xF015, 0x0000, 0x0000, 0x6009, 0x00EE], Recorder::default(), 4);
    assert_eq!(interp.platform().delay, 9);
}

#[test]
fn skips() {
    let interp = run(&[0x6005, 0x3005, 0x6101, 0xF115], Recorder::default(), 3);
    assert_eq!(interp.platform().delay, 0);
    let interp = run(&[0x6005, 0x4005, 0x6101, 0xF115], Recorder::default(), 4);
    assert_eq!(interp.platform().delay, 1);
}

#[test]
fn decimal_digits_and_register_load() {
    let interp = run(&[0x60FE, 0xA300, 0xF033, 0xF265, 0xF115], Recorder::default(), 5);
    assert_eq!(interp.platform().delay, 5);
    let interp = run(&[0x60FE, 0xA300, 0xF033, 0xF265, 0xF215], Recorder::default(), 5);
    assert_eq!(interp.platform().delay, 4);
}

#[test]
fn register_store_then_load() {
    let program = [0x6007, 0x6108, 0xA300, 0xF155, 0x6000, 0x6100, 0xA300, 0xF165, 0xF115];
    let interp = run(&program, Recorder::default(), 9);
    assert_eq!(interp.platform().delay, 8);
}

#[test]
fn random_word_is_masked() {
    let platform = Recorder { random: 0xAB, ..Recorder::default() };
    let interp = run(&[0xC00F, 0xF015], platform, 2);
    assert_eq!(interp.platform().delay, 0x0B);
}

#[test]
fn key_skips() {
    let mut keys = [false; 16];
    keys[3] = true;
    let platform = Recorder { keys, ..Recorder::default() };
    let interp = run(&[0x6003, 0xE09E, 0x6107, 0xF115], platform, 3);
    assert_eq!(interp.platform().delay, 0);
    let platform = Recorder { keys, ..Recorder::default() };
    let interp = run(&[0x6003, 0xE0A1, 0x6107, 0xF115], platform, 4);
    assert_eq!(interp.platform().delay, 7);
}

#[test]
fn wait_for_key() {
    let platform = Recorder { pressed: Some(5), ..Recorder::default() };
    let interp = run(&[0xF00A, 0xF015], platform, 2);
    assert_eq!(interp.platform().delay, 5);
}

#[test]
fn draw_and_clear() {
    let platform = Recorder { collision: true, ..Recorder::default() };
    let interp = run(&[0x6003, 0x6104, 0xA300, 0xD013, 0xFF15, 0x00E0], platform, 6);
    assert_eq!(interp.platform().drawn, vec![(3, 4, 3)]);
    assert_eq!(interp.platform().delay, 1);
    assert_eq!(interp.platform().cleared, 1);
}

#[test]
fn unknown_opcode() {
    let mut interp = Interpreter::new(rom(&[0x0000]), Recorder::default());
    assert_eq!(interp.run_next_instruction(), Err(Error::UnknownOpCode(OpCode(0))));
}

#[test]
fn sound_timer_instruction_is_unknown() {
    let mut interp = Interpreter::new(rom(&[0xF018]), Recorder::default());
    assert_eq!(interp.run_next_instruction(), Err(Error::UnknownOpCode(OpCode(0xF018))));
}

#[test]
fn can_run_next_checks_the_state() {
    let interp = Interpreter::new(rom(&[0x00EE]), Recorder::default());
    assert_eq!(interp.can_run_next(), (false, Some(OpCode(0x00EE))));
    let interp = Interpreter::new(rom(&[0x6000]), Recorder::default());
    assert_eq!(interp.can_run_next(), (true, Some(OpCode(0x6000))));
}

fn sprite_program() -> Rom {
    rom(&[0xA20A, 0x6000, 0x6100, 0xD011, 0x1208, 0xF000])
}

fn lit_columns(fb: &FrameBuffer, y: usize) -> Vec<usize> {
    (0..64).filter(|&x| fb.get(x, y)).collect()
}

#[test]
fn managed_draws_on_its_screen() {
    let mut m = ManagedInterpreter::new(sprite_program(), || 0u8);
    for _ in 0..4 {
        m.simulate_one_instruction().unwrap();
    }
    assert_eq!(lit_columns(m.frame_buffer(), 0), vec![0, 1, 2, 3]);
    assert!(lit_columns(m.frame_buffer(), 1).is_empty());
    assert_eq!(m.frame_buffer().iter_rows().count(), 32);
    let first_row: Vec<bool> = m.frame_buffer().iter_rows().next().unwrap()[..5].to_vec();
    assert_eq!(first_row, vec![true, true, true, true, false]);
}

#[test]
fn managed_simulates_for_a_duration() {
    let mut m = ManagedInterpreter::new(sprite_program(), || 0u8);
    assert_eq!(m.simulate_millis(20), Ok(()));
    assert_eq!(lit_columns(m.frame_buffer(), 0), vec![0, 1, 2, 3]);
    let mut m = ManagedInterpreter::new(sprite_program(), || 0u8);
    assert_eq!(m.simulate_duration(std::time::Duration::from_millis(8)), Ok(()));
    assert_eq!(lit_columns(m.frame_buffer(), 0), vec![0, 1, 2, 3]);
}

#[test]
fn drawing_twice_erases() {
    let program = rom(&[0xA20C, 0x6000, 0x6100, 0xD011, 0xD011, 0x120A, 0xF000]);
    let mut m = ManagedInterpreter::new(program, || 0u8);
    assert_eq!(m.simulate_millis(10), Ok(()));
    assert!(lit_columns(m.frame_buffer(), 0).is_empty());
}

#[test]
fn sprite_wraps_its_position_and_clips() {
    let program = rom(&[0xA20C, 0x607E, 0x6121, 0xD012, 0x120A, 0x0000, 0xFF81]);
    let mut m = ManagedInterpreter::new(program, || 0u8);
    assert_eq!(m.simulate_millis(8), Ok(()));
    assert_eq!(lit_columns(m.frame_buffer(), 1), vec![62, 63]);
    assert_eq!(lit_columns(m.frame_buffer(), 2), vec![62]);
}

#[test]
fn managed_stops_on_an_invalid_state() {
    let mut m = ManagedInterpreter::new(rom(&[0x00EE]), || 0u8);
    assert_eq!(m.simulate_millis(4), Err(Error::InvalidState));
}

#[test]
fn managed_stops_on_an_unknown_opcode() {
    let mut m = ManagedInterpreter::new(rom(&[0x6000, 0x0000]), || 0u8);
    assert_eq!(m.simulate_millis(100), Err(Error::UnknownOpCode(OpCode(0))));
}

#[test]
fn managed_random_numbers() {
    let program = rom(&[0xC0FF, 0xA20E, 0x6100, 0xD011, 0x1208, 0x0000, 0x0000, 0x8000]);
    let mut m = ManagedInterpreter::new(program, || 3u8);
    assert_eq!(m.simulate_millis(8), Ok(()));
    assert_eq!(lit_columns(m.frame_buffer(), 0), vec![3]);
}

#[test]
fn managed_waits_for_a_released_key() {
    let program = rom(&[0xF00A, 0xA20C, 0x6100, 0xD011, 0x1208, 0x0000, 0x8000]);
    let mut m = ManagedInterpreter::new(program, || 0u8);
    m.set_key_down(Key::try_from(7).unwrap(), true);
    assert_eq!(m.simulate_millis(6), Ok(()));
    assert!(lit_columns(m.frame_buffer(), 0).is_empty());
    m.set_key_down(Key::try_from(7).unwrap(), false);
    assert_eq!(m.simulate_millis(8), Ok(()));
    assert_eq!(lit_columns(m.frame_buffer(), 0), vec![7]);
}

#[test]
fn frame_buffer_bounds() {
    let fb = FrameBuffer::default();
    assert!(fb.in_bounds(63, 31));
    assert!(!fb.in_bounds(64, 0));
    assert!(!fb.in_bounds(0, 32));
    assert!(!fb.get(10, 10));
}

#[test]
fn sprite_pixels() {
    let s = Sprite::new(vec![0x80, 0x01]);
    assert!(s.is_pixel_on(0, 0));
    assert!(!s.is_pixel_on(1, 0));
    assert!(s.is_pixel_on(7, 1));
    assert!(!s.is_pixel_on(8, 1));
    assert!(!s.is_pixel_on(0, 2));
    assert_eq!(Point { x: 3, y: 4 }.add(Point { x: 1, y: 2 }), Point { x: 4, y: 6 });
}

#[test]
fn delay_timer_drops_every_eighth_instruction() {
    let program = rom(&[
        0x6010, 0xF015, 0x6200, 0x6200, 0x6200, 0x6200, 0x6200, 0x6200, 0x6200, 0xF107, 0xA300,
        0xF155, 0xA301, 0xD231, 0x121C,
    ]);
    let mut m = ManagedInterpreter::new(program, || 0u8);
    assert_eq!(m.simulate_millis(30), Ok(()));
    assert_eq!(lit_columns(m.frame_buffer(), 0), vec![4, 5, 6, 7]);
}
