use dynac::chunk::{Chunk, OpCode};
use dynac::table::Table;
use dynac::value::{Printed, Value};
use dynac::vm::Host;

fn parse_number(text: &str) -> u64 {
    text.parse::<f64>().map(|n| n.to_bits()).unwrap_or(0)
}

fn float(bits: u64) -> f64 {
    f64::from_bits(bits)
}

/// Reads number literals and compares numbers as the interpreter's host does.
struct NumberHost;

impl Host for NumberHost {
    fn spec_parse_number(&self, text: &str) -> u64 {
        self.parse_number(text)
    }
    fn spec_add(&self, a: u64, b: u64) -> u64 {
        self.add(a, b)
    }
    fn spec_subtract(&self, a: u64, b: u64) -> u64 {
        self.subtract(a, b)
    }
    fn spec_multiply(&self, a: u64, b: u64) -> u64 {
        self.multiply(a, b)
    }
    fn spec_divide(&self, a: u64, b: u64) -> u64 {
        self.divide(a, b)
    }
    fn spec_negate(&self, a: u64) -> u64 {
        self.negate(a)
    }
    fn spec_greater(&self, a: u64, b: u64) -> bool {
        self.greater(a, b)
    }
    fn spec_less(&self, a: u64, b: u64) -> bool {
        self.less(a, b)
    }
    fn spec_numbers_equal(&self, a: u64, b: u64) -> bool {
        self.numbers_equal(a, b)
    }
    fn parse_number(&self, text: &str) -> u64 {
        parse_number(text)
    }
    fn add(&self, a: u64, b: u64) -> u64 {
        (float(a) + float(b)).to_bits()
    }
    fn subtract(&self, a: u64, b: u64) -> u64 {
        (float(a) - float(b)).to_bits()
    }
    fn multiply(&self, a: u64, b: u64) -> u64 {
        (float(a) * float(b)).to_bits()
    }
    fn divide(&self, a: u64, b: u64) -> u64 {
        (float(a) / float(b)).to_bits()
    }
    fn negate(&self, a: u64) -> u64 {
        (-float(a)).to_bits()
    }
    fn greater(&self, a: u64, b: u64) -> bool {
        float(a) > float(b)
    }
    fn less(&self, a: u64, b: u64) -> bool {
        float(a) < float(b)
    }
    fn numbers_equal(&self, a: u64, b: u64) -> bool {
        (float(a) - float(b)).abs() < f64::EPSILON
    }
    fn index_number(&self, index: usize) -> u64 {
        (index as f64).to_bits()
    }
    fn call_native(&self, _native_id: usize) -> Result<u64, String> {
        Ok(0)
    }
    fn print(&self, _printed: Printed) {}
    fn warn(&self, _message: String) {}
}

#[test]
fn opcode_bytes_round_trip() {
    for b in 0u8..=255 {
        match OpCode::from_byte(b) {
            Some(op) => assert_eq!(op.to_byte(), b),
            None => assert!(b >= 38),
        }
    }
    assert_eq!(OpCode::from_byte(0), Some(OpCode::Constant));
    assert_eq!(OpCode::Return.to_byte(), 29);
}

#[test]
fn opcode_names() {
    assert_eq!(OpCode::byte_to_string(&Some(OpCode::JumpIfFalse)), "JumpIfFalse");
    assert_eq!(OpCode::byte_to_string(&OpCode::from_byte(200)), "None");
}

#[test]
fn chunk_write_read_and_patch() {
    let mut chunk = Chunk::new();
    chunk.write(OpCode::Constant.to_byte(), 7);
    chunk.write(0, 7);
    chunk.write(OpCode::Return.to_byte(), 8);
    assert_eq!(chunk.len(), 3);
    assert_eq!(chunk.read_from_offset(2), Some(OpCode::Return.to_byte()));
    assert_eq!(chunk.read_line_from_offset(2), Some(8));
    assert_eq!(chunk.read_from_offset(3), None);
    chunk.write_by_offset(1, 5);
    assert_eq!(chunk.read_from_offset(1), Some(5));
}

#[test]
fn chunk_constants_are_found_by_value() {
    let mut chunk = Chunk::new();
    let a = chunk.add_constant(Value::Number(1));
    let b = chunk.add_constant(Value::Bool(true));
    let c = chunk.add_constant(Value::Number(1));
    assert_eq!((a, b, c), (0, 1, 2));
    assert_eq!(chunk.find_constant(Value::Number(1), &NumberHost), Some(0));
    assert_eq!(chunk.find_constant(Value::Nil, &NumberHost), None);
    assert_eq!(*chunk.get_constant(1), Value::Bool(true));
    assert_eq!(chunk.iter_constants().len(), 3);
}

#[test]
fn table_insert_find_remove() {
    let mut t = Table::new();
    assert_eq!(t.insert("a".to_string(), Value::Number(1)), None);
    assert_eq!(t.insert("b".to_string(), Value::Nil), None);
    assert_eq!(t.insert("a".to_string(), Value::Bool(false)), Some(Value::Number(1)));
    assert_eq!(t.len(), 2);
    assert_eq!(t.find("a"), Some(Value::Bool(false)));
    assert_eq!(t.find("zz"), None);
    assert_eq!(t.remove(&"a".to_string()), Some(Value::Bool(false)));
    assert_eq!(t.remove(&"a".to_string()), None);
    assert_eq!(t.len(), 1);
    assert_eq!(t.find("b"), Some(Value::Nil));
}

#[test]
fn test_find_constant_counts_zeroes_equal() {
    let mut chunk = Chunk::new();
    chunk.add_constant(Value::Number((-0.0f64).to_bits()));
    chunk.add_constant(Value::Bool(false));
    assert_eq!(chunk.find_constant(Value::Number(0.0f64.to_bits()), &NumberHost), Some(0));
    assert_eq!(chunk.find_constant(Value::Bool(false), &NumberHost), Some(1));
    assert_eq!(chunk.find_constant(Value::Number(1.0f64.to_bits()), &NumberHost), None);
}
