use vstd::prelude::*;
use vstd::string::*;
use crate::errors::{ChemikazeError, ErrorKind};
use crate::util::{bytes_text, bytes_to_string};

verus! {

/// Number of known elements.
pub const EARTH_ELEMENT_CNT: usize = 85;

/// Number of buckets of the symbol hash table.
pub const INDEX_BUCKET_CNT: usize = 512;

const INDEX_HASH_MASK: usize = 511;

/// The known element symbols in ASCII, two bytes per element; the second byte of
/// a one-letter symbol is 0. The position of a symbol is its element id. The
/// first elements are roughly sorted by popularity in organic chemistry.
pub const EARTH_SYMBOLS_AS_BYTES: [u8; 170] = [
    72, 0, 67, 0, 79, 0, 78, 0, 80, 0, 70, 0, // H C O N P F
    83, 0, 66, 114, 67, 108, 78, 97, 76, 105, 70, 101, // S Br Cl Na Li Fe
    75, 0, 67, 97, 77, 103, 78, 105, 65, 108, 80, 100, // K Ca Mg Ni Al Pd
    83, 99, 86, 0, 67, 117, 67, 114, 77, 110, 67, 111, // Sc V Cu Cr Mn Co
    90, 110, 71, 97, 71, 101, 65, 115, 83, 101, 84, 105, // Zn Ga Ge As Se Ti
    83, 105, 66, 101, 66, 0, 75, 114, 82, 98, 83, 114, // Si Be B Kr Rb Sr
    89, 0, 90, 114, 78, 98, 77, 111, 82, 117, 82, 104, // Y Zr Nb Mo Ru Rh
    65, 103, 67, 100, 73, 110, 83, 110, 83, 98, 84, 101, // Ag Cd In Sn Sb Te
    73, 0, 88, 101, 67, 115, 66, 97, 76, 97, 67, 101, // I Xe Cs Ba La Ce
    80, 114, 78, 100, 83, 109, 69, 117, 71, 100, 84, 98, // Pr Nd Sm Eu Gd Tb
    68, 121, 72, 111, 69, 114, 84, 109, 89, 98, 76, 117, // Dy Ho Er Tm Yb Lu
    72, 102, 84, 97, 84, 99, 87, 0, 82, 101, 79, 115, // Hf Ta Tc W Re Os
    73, 114, 80, 116, 65, 117, 72, 103, 84, 108, 80, 98, // Ir Pt Au Hg Tl Pb
    66, 105, 84, 104, 80, 97, 85, 0, 72, 101, 78, 101, // Bi Th Pa U He Ne
    65, 114, // Ar
];

/// First byte of the symbol of element `id`.
pub open spec fn symbol_first(id: int) -> u8 {
    EARTH_SYMBOLS_AS_BYTES@[2 * id]
}

/// Second byte of the symbol of element `id` (0 for one-letter symbols).
pub open spec fn symbol_second(id: int) -> u8 {
    EARTH_SYMBOLS_AS_BYTES@[2 * id + 1]
}

/// `id` is a known element whose symbol bytes are `b0`, `b1`.
pub open spec fn is_symbol_of(id: int, b0: u8, b1: u8) -> bool {
    0 <= id < EARTH_ELEMENT_CNT && symbol_first(id) == b0 && symbol_second(id) == b1
}

/// The symbol bytes `b0`, `b1` name a known element.
pub open spec fn is_known_symbol(b0: u8, b1: u8) -> bool {
    exists|id: int| is_symbol_of(id, b0, b1)
}

/// The element whose symbol bytes are `b0`, `b1` (meaningful when the symbol is known).
pub open spec fn element_id(b0: u8, b1: u8) -> int {
    choose|id: int| is_symbol_of(id, b0, b1)
}

/// The symbol of element `id` as text.
pub open spec fn symbol_text(id: int) -> Seq<char> {
    if symbol_second(id) == 0 {
        seq![symbol_first(id) as char]
    } else {
        seq![symbol_first(id) as char, symbol_second(id) as char]
    }
}

/// The bytes that a lookup reports for a symbol: one byte when the second is 0.
pub open spec fn symbol_bytes(b0: u8, b1: u8) -> Seq<u8> {
    if b1 == 0 {
        seq![b0]
    } else {
        seq![b0, b1]
    }
}

/// The message of a failed lookup.
pub open spec fn unknown_symbol_message(b0: u8, b1: u8) -> Seq<char> {
    "Unknown chemical symbol: "@ + bytes_text(symbol_bytes(b0, b1))
}

/// Bucket of a symbol: `(b0 * 277) XOR b1`, modulo the number of buckets.
pub open spec fn symbol_hash(b0: u8, b1: u8) -> usize {
    (((b0 as usize) * 277) as usize ^ (b1 as usize)) & 511
}

/// Bucket of the symbol of element `id`.
pub open spec fn bucket_of(id: int) -> usize {
    symbol_hash(symbol_first(id), symbol_second(id))
}

/// The buckets of the symbol hash table: bucket `symbol_hash(b0, b1)` holds the
/// id of the element whose symbol is `b0`, `b1`; buckets that no symbol hashes
/// to hold 0.
pub const ELEMENTHASH_TO_ELEMENT: [u8; 512] = [
    0, 0, 55, 83, 38, 0, 0, 9, 0, 0, 20, 0, 50, 21, 0, 15, // 0..
    23, 0, 0, 8, 0, 0, 0, 0, 0, 0, 53, 43, 0, 0, 13, 0, // 16..
    74, 0, 0, 69, 0, 0, 27, 84, 0, 0, 0, 0, 0, 0, 0, 64, // 32..
    0, 0, 42, 0, 0, 0, 0, 0, 0, 16, 0, 0, 0, 0, 0, 0, // 48..
    0, 0, 0, 0, 0, 0, 0, 0, 0, 65, 0, 0, 0, 36, 0, 0, // 64..
    0, 0, 0, 0, 0, 10, 0, 0, 0, 0, 0, 0, 0, 52, 0, 0, // 80..
    0, 0, 0, 0, 0, 0, 3, 0, 0, 0, 0, 0, 0, 0, 0, 0, // 96..
    0, 0, 0, 0, 0, 0, 0, 0, 0, 0, 0, 0, 0, 0, 0, 1, // 112..
    0, 47, 0, 0, 0, 67, 59, 68, 76, 63, 0, 0, 79, 29, 0, 72, // 128..
    4, 0, 0, 44, 0, 0, 0, 0, 0, 0, 0, 0, 0, 0, 0, 0, // 144..
    0, 0, 0, 0, 0, 0, 0, 0, 0, 0, 0, 0, 0, 0, 0, 0, // 160..
    0, 0, 25, 0, 0, 0, 26, 58, 0, 0, 0, 0, 0, 0, 0, 0, // 176..
    0, 0, 0, 0, 0, 0, 0, 0, 0, 0, 0, 0, 0, 0, 0, 40, // 192..
    0, 0, 41, 0, 0, 0, 0, 0, 34, 0, 0, 62, 57, 0, 0, 70, // 208..
    0, 0, 54, 0, 73, 0, 0, 0, 0, 0, 0, 0, 0, 0, 0, 0, // 224..
    0, 80, 77, 0, 17, 0, 0, 0, 0, 0, 0, 0, 0, 48, 0, 0, // 240..
    0, 0, 0, 78, 0, 0, 0, 0, 71, 0, 0, 51, 24, 0, 19, 31, // 256..
    37, 0, 0, 0, 0, 0, 0, 0, 7, 0, 0, 0, 0, 0, 0, 0, // 272..
    0, 0, 0, 0, 0, 0, 0, 12, 0, 0, 0, 0, 0, 0, 0, 0, // 288..
    0, 0, 0, 0, 0, 0, 14, 0, 0, 0, 0, 0, 0, 0, 39, 22, // 304..
    0, 0, 0, 0, 0, 0, 0, 0, 0, 0, 0, 0, 0, 0, 0, 0, // 320..
    0, 0, 0, 0, 0, 33, 0, 0, 0, 0, 0, 0, 0, 49, 0, 0, // 336..
    0, 0, 0, 0, 0, 0, 0, 0, 0, 0, 32, 0, 0, 0, 0, 0, // 352..
    0, 0, 0, 0, 0, 0, 0, 0, 0, 0, 0, 2, 0, 0, 0, 0, // 368..
    0, 0, 0, 0, 0, 0, 0, 61, 0, 0, 0, 0, 0, 82, 66, 75, // 384..
    0, 0, 0, 0, 0, 0, 0, 0, 0, 0, 0, 0, 0, 0, 0, 0, // 400..
    0, 45, 56, 0, 0, 0, 30, 0, 0, 0, 28, 0, 18, 46, 0, 0, // 416..
    0, 0, 0, 0, 0, 0, 0, 0, 0, 0, 0, 0, 0, 35, 5, 0, // 432..
    0, 0, 0, 0, 0, 0, 0, 0, 0, 0, 0, 0, 0, 0, 0, 6, // 448..
    0, 0, 0, 0, 0, 0, 0, 0, 0, 0, 0, 11, 0, 0, 0, 0, // 464..
    0, 0, 0, 0, 0, 0, 0, 0, 0, 0, 0, 0, 0, 60, 0, 0, // 480..
    0, 0, 0, 0, 0, 0, 0, 0, 0, 81, 0, 0, 0, 0, 0, 0, // 496..
];

/// Each known element sits in the bucket of its symbol.
pub open spec fn index_wf(buckets: Seq<u8>) -> bool {
    &&& buckets.len() == INDEX_BUCKET_CNT
    &&& forall|id: int|
        0 <= id < EARTH_ELEMENT_CNT ==> bucket_of(id) < INDEX_BUCKET_CNT && #[trigger] buckets[bucket_of(
            id,
        ) as int] == id
}

/// The bucket table is right for every known symbol; in particular no two
/// known symbols share a bucket.
pub proof fn lemma_bucket_table()
    ensures
        index_wf(ELEMENTHASH_TO_ELEMENT@),
{
    // the bucket of each known symbol
    assert(symbol_hash(72, 0) == 488 &&
        symbol_hash(67, 0) == 127 &&
        symbol_hash(79, 0) == 379 &&
        symbol_hash(78, 0) == 102 &&
        symbol_hash(80, 0) == 144 &&
        symbol_hash(70, 0) == 446 &&
        symbol_hash(83, 0) == 463 &&
        symbol_hash(66, 114) == 280 &&
        symbol_hash(67, 108) == 19 &&
        symbol_hash(78, 97) == 7 &&
        symbol_hash(76, 105) == 85 &&
        symbol_hash(70, 101) == 475 &&
        symbol_hash(75, 0) == 295 &&
        symbol_hash(67, 97) == 30 &&
        symbol_hash(77, 103) == 310 &&
        symbol_hash(78, 105) == 15 &&
        symbol_hash(65, 108) == 57 &&
        symbol_hash(80, 100) == 244 &&
        symbol_hash(83, 99) == 428 &&
        symbol_hash(86, 0) == 270 &&
        symbol_hash(67, 117) == 10 &&
        symbol_hash(67, 114) == 13 &&
        symbol_hash(77, 110) == 319 &&
        symbol_hash(67, 111) == 16 &&
        symbol_hash(90, 110) == 268 &&
        symbol_hash(71, 97) == 178 &&
        symbol_hash(71, 101) == 182 &&
        symbol_hash(65, 115) == 38 &&
        symbol_hash(83, 101) == 426 &&
        symbol_hash(84, 105) == 141 &&
        symbol_hash(83, 105) == 422 &&
        symbol_hash(66, 101) == 271 &&
        symbol_hash(66, 0) == 362 &&
        symbol_hash(75, 114) == 341 &&
        symbol_hash(82, 98) == 216 &&
        symbol_hash(83, 114) == 445 &&
        symbol_hash(89, 0) == 77 &&
        symbol_hash(90, 114) == 272 &&
        symbol_hash(78, 98) == 4 &&
        symbol_hash(77, 111) == 318 &&
        symbol_hash(82, 117) == 207 &&
        symbol_hash(82, 104) == 210 &&
        symbol_hash(65, 103) == 50 &&
        symbol_hash(67, 100) == 27 &&
        symbol_hash(73, 110) == 147 &&
        symbol_hash(83, 110) == 417 &&
        symbol_hash(83, 98) == 429 &&
        symbol_hash(84, 101) == 129 &&
        symbol_hash(73, 0) == 253 &&
        symbol_hash(88, 101) == 349 &&
        symbol_hash(67, 115) == 12 &&
        symbol_hash(66, 97) == 267 &&
        symbol_hash(76, 97) == 93 &&
        symbol_hash(67, 101) == 26 &&
        symbol_hash(80, 114) == 226 &&
        symbol_hash(78, 100) == 2 &&
        symbol_hash(83, 109) == 418 &&
        symbol_hash(69, 117) == 220 &&
        symbol_hash(71, 100) == 183 &&
        symbol_hash(84, 98) == 134 &&
        symbol_hash(68, 121) == 493 &&
        symbol_hash(72, 111) == 391 &&
        symbol_hash(69, 114) == 219 &&
        symbol_hash(84, 109) == 137 &&
        symbol_hash(89, 98) == 47 &&
        symbol_hash(76, 117) == 73 &&
        symbol_hash(72, 102) == 398 &&
        symbol_hash(84, 97) == 133 &&
        symbol_hash(84, 99) == 135 &&
        symbol_hash(87, 0) == 35 &&
        symbol_hash(82, 101) == 223 &&
        symbol_hash(79, 115) == 264 &&
        symbol_hash(73, 114) == 143 &&
        symbol_hash(80, 116) == 228 &&
        symbol_hash(65, 117) == 32 &&
        symbol_hash(72, 103) == 399 &&
        symbol_hash(84, 108) == 136 &&
        symbol_hash(80, 98) == 242 &&
        symbol_hash(66, 105) == 259 &&
        symbol_hash(84, 104) == 140 &&
        symbol_hash(80, 97) == 241 &&
        symbol_hash(85, 0) == 505 &&
        symbol_hash(72, 101) == 397 &&
        symbol_hash(78, 101) == 3 &&
        symbol_hash(65, 114) == 39) by (bit_vector);
    // a case split on the element id, so that the buckets above apply
    assert forall|id: int| 0 <= id < EARTH_ELEMENT_CNT implies bucket_of(id) < INDEX_BUCKET_CNT
        && #[trigger] ELEMENTHASH_TO_ELEMENT@[bucket_of(id) as int] == id by {
        assert(id == 0 || id == 1 || id == 2 || id == 3 || id == 4 || id == 5 || id == 6 || id == 7
            || id == 8 || id == 9 || id == 10 || id == 11 || id == 12 || id == 13 || id == 14 || id == 15
            || id == 16 || id == 17 || id == 18 || id == 19 || id == 20 || id == 21 || id == 22 || id == 23
            || id == 24 || id == 25 || id == 26 || id == 27 || id == 28 || id == 29 || id == 30 || id == 31
            || id == 32 || id == 33 || id == 34 || id == 35 || id == 36 || id == 37 || id == 38 || id == 39
            || id == 40 || id == 41 || id == 42 || id == 43 || id == 44 || id == 45 || id == 46 || id == 47
            || id == 48 || id == 49 || id == 50 || id == 51 || id == 52 || id == 53 || id == 54 || id == 55
            || id == 56 || id == 57 || id == 58 || id == 59 || id == 60 || id == 61 || id == 62 || id == 63
            || id == 64 || id == 65 || id == 66 || id == 67 || id == 68 || id == 69 || id == 70 || id == 71
            || id == 72 || id == 73 || id == 74 || id == 75 || id == 76 || id == 77 || id == 78 || id == 79
            || id == 80 || id == 81 || id == 82 || id == 83 || id == 84);
    }
}

/// A known symbol names exactly one element.
pub proof fn lemma_symbol_unique(id: int, b0: u8, b1: u8)
    requires
        is_symbol_of(id, b0, b1),
    ensures
        is_known_symbol(b0, b1),
        element_id(b0, b1) == id,
{
    lemma_bucket_table();
    let other = element_id(b0, b1);
    assert(is_symbol_of(other, b0, b1));
    assert(bucket_of(other) == bucket_of(id));
}

/// The hash table bucket of a symbol; `symbol` is `[b0, b1]`, with `b1 == 0`
/// for one-letter symbols.
pub fn hash(symbol: [u8; 2]) -> (r: usize)
    ensures
        r == symbol_hash(symbol[0], symbol[1]),
        r < INDEX_BUCKET_CNT,
{
    let m: usize = symbol[0] as usize * 277;
    let b: usize = symbol[1] as usize;
    let r = (m ^ b) & INDEX_HASH_MASK;
    assert(r < 512) by (bit_vector)
        requires
            r == (m ^ b) & 511usize,
    ;
    r
}

/// The element whose symbol is `bytes` (`[b0, 0]` for one-letter symbols):
/// one bucket of the hash table, one comparison.
pub fn get_element_by_symbol_bytes(bytes: [u8; 2]) -> (r: Result<u8, ChemikazeError>)
    ensures
        match r {
            Ok(id) => is_symbol_of(id as int, bytes[0], bytes[1]),
            Err(e) => {
                &&& !is_known_symbol(bytes[0], bytes[1])
                &&& e.kind == ErrorKind::UnknownElement
                &&& e.msg@ == unknown_symbol_message(bytes[0], bytes[1])
            },
        },
{
    let h = hash(bytes);
    let element = ELEMENTHASH_TO_ELEMENT[h];
    let i = element as usize * 2;
    if element as usize >= EARTH_ELEMENT_CNT || EARTH_SYMBOLS_AS_BYTES[i] != bytes[0]
        || EARTH_SYMBOLS_AS_BYTES[i + 1] != bytes[1] {
        proof {
            lemma_bucket_table();
            assert forall|id: int| !is_symbol_of(id, bytes[0], bytes[1]) by {
                if is_symbol_of(id, bytes[0], bytes[1]) {
                    assert(bucket_of(id) == h);
                }
            }
        }
        let element_str = if bytes[1] == 0 {
            bytes_to_string(&bytes[0..1])
        } else {
            bytes_to_string(&bytes)
        };
        assert(bytes@.subrange(0, 1) =~= seq![bytes[0]]);
        assert(bytes@ =~= seq![bytes[0], bytes[1]]);
        let mut msg = String::from_str("Unknown chemical symbol: ");
        msg.append(element_str.as_str());
        return Err(ChemikazeError { msg, kind: ErrorKind::UnknownElement });
    }
    Ok(element)
}

/// The element whose symbol is the first one or two bytes of `symbol`
/// (`"H"`, `"Na"`).
pub fn get_element_by_symbol_str(symbol: &str) -> (r: Result<u8, ChemikazeError>)
    requires
        symbol@.len() > 0,
    ensures
        ({
            let b = symbol.spec_bytes();
            let b1 = if b.len() > 1 { b[1] } else { 0u8 };
            match r {
                Ok(id) => is_symbol_of(id as int, b[0], b1),
                Err(e) => {
                    &&& !is_known_symbol(b[0], b1)
                    &&& e.kind == ErrorKind::UnknownElement
                    &&& e.msg@ == unknown_symbol_message(b[0], b1)
                },
            }
        }),
{
    let ascii = symbol.as_bytes();
    proof {
        vstd::utf8::encode_utf8_first_scalar(symbol@);
    }
    let mut bytes: [u8; 2] = [0; 2];
    bytes[0] = ascii[0];
    if ascii.len() > 1 {
        bytes[1] = ascii[1];
    }
    get_element_by_symbol_bytes(bytes)
}

} // verus!
