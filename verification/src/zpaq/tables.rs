//! Lookup tables of the context model, with the facts about them that the proofs need.

use vstd::prelude::*;

verus! {

/// `SQUASH_TABLE[k]` is about `32768 / (1 + exp(k / 64))`: the logistic function on the
/// non-positive half axis, in steps of 1/64.
pub const SQUASH_TABLE: [u16; 666] = [
    16384, 16256, 16128, 16000, 15872, 15744, 15616, 15488, 15361, 15233, 15106, 14979, 14852,
    14725, 14599, 14472, 14346, 14220, 14095, 13969, 13844, 13719, 13595, 13471, 13347, 13224,
    13101, 12978, 12856, 12734, 12612, 12491, 12371, 12251, 12131, 12012, 11893, 11775, 11658,
    11540, 11424, 11308, 11192, 11078, 10963, 10850, 10737, 10624, 10512, 10401, 10290, 10180,
    10071, 9962, 9854, 9747, 9640, 9534, 9429, 9324, 9221, 9117, 9015, 8913, 8812, 8712, 8612, 8513,
    8415, 8318, 8221, 8126, 8030, 7936, 7842, 7750, 7658, 7566, 7476, 7386, 7297, 7209, 7121, 7035,
    6949, 6863, 6779, 6695, 6613, 6530, 6449, 6369, 6289, 6210, 6131, 6054, 5977, 5901, 5826, 5752,
    5678, 5605, 5533, 5461, 5390, 5320, 5251, 5183, 5115, 5048, 4981, 4916, 4851, 4786, 4723, 4660,
    4598, 4537, 4476, 4416, 4356, 4298, 4240, 4182, 4126, 4070, 4014, 3960, 3906, 3852, 3799, 3747,
    3696, 3645, 3594, 3545, 3496, 3447, 3399, 3352, 3305, 3259, 3213, 3168, 3124, 3080, 3037, 2994,
    2952, 2910, 2869, 2828, 2788, 2748, 2709, 2671, 2633, 2595, 2558, 2521, 2485, 2450, 2414, 2380,
    2345, 2312, 2278, 2245, 2213, 2181, 2149, 2118, 2087, 2057, 2027, 1998, 1968, 1940, 1911, 1883,
    1856, 1829, 1802, 1775, 1749, 1724, 1698, 1673, 1649, 1624, 1600, 1577, 1554, 1531, 1508, 1486,
    1464, 1442, 1421, 1399, 1379, 1358, 1338, 1318, 1298, 1279, 1260, 1241, 1223, 1204, 1186, 1169,
    1151, 1134, 1117, 1100, 1084, 1067, 1051, 1036, 1020, 1005, 990, 975, 960, 946, 931, 917, 903,
    890, 876, 863, 850, 837, 825, 812, 800, 788, 776, 764, 752, 741, 730, 719, 708, 697, 686, 676,
    666, 656, 646, 636, 626, 617, 607, 598, 589, 580, 571, 562, 554, 545, 537, 529, 521, 513, 505,
    497, 490, 482, 475, 467, 460, 453, 446, 440, 433, 426, 420, 413, 407, 401, 394, 388, 382, 377,
    371, 365, 360, 354, 349, 343, 338, 333, 328, 323, 318, 313, 308, 303, 299, 294, 289, 285, 281,
    276, 272, 268, 264, 260, 256, 252, 248, 244, 240, 237, 233, 229, 226, 222, 219, 215, 212, 209,
    206, 202, 199, 196, 193, 190, 187, 184, 182, 179, 176, 173, 171, 168, 165, 163, 160, 158, 155,
    153, 151, 148, 146, 144, 141, 139, 137, 135, 133, 131, 129, 127, 125, 123, 121, 119, 117, 115,
    114, 112, 110, 108, 107, 105, 103, 102, 100, 99, 97, 96, 94, 93, 91, 90, 88, 87, 86, 84, 83, 82,
    81, 79, 78, 77, 76, 74, 73, 72, 71, 70, 69, 68, 67, 66, 65, 64, 63, 62, 61, 60, 59, 58, 57, 56,
    55, 54, 54, 53, 52, 51, 50, 49, 49, 48, 47, 46, 46, 45, 44, 44, 43, 42, 42, 41, 40, 40, 39, 38,
    38, 37, 37, 36, 36, 35, 34, 34, 33, 33, 32, 32, 31, 31, 30, 30, 29, 29, 28, 28, 28, 27, 27, 26,
    26, 25, 25, 25, 24, 24, 23, 23, 23, 22, 22, 22, 21, 21, 21, 20, 20, 20, 19, 19, 19, 18, 18, 18,
    18, 17, 17, 17, 17, 16, 16, 16, 15, 15, 15, 15, 15, 14, 14, 14, 14, 13, 13, 13, 13, 13, 12, 12,
    12, 12, 12, 11, 11, 11, 11, 11, 10, 10, 10, 10, 10, 10, 10, 9, 9, 9, 9, 9, 9, 8, 8, 8, 8, 8, 8,
    8, 8, 7, 7, 7, 7, 7, 7, 7, 7, 6, 6, 6, 6, 6, 6, 6, 6, 6, 6, 5, 5, 5, 5, 5, 5, 5, 5, 5, 5, 5, 5,
    4, 4, 4, 4, 4, 4, 4, 4, 4, 4, 4, 4, 4, 4, 3, 3, 3, 3, 3, 3, 3, 3, 3, 3, 3, 3, 3, 3, 3, 3, 3, 3,
    3, 2, 2, 2, 2, 2, 2, 2, 2, 2, 2, 2, 2, 2, 2, 2, 2, 2, 2, 2, 2, 2, 2, 2, 2, 2, 2, 1, 1, 1, 1, 1,
    1, 1, 1, 1, 1, 1, 1, 1, 1, 1, 1, 1, 1, 1, 1, 1, 1, 1, 1, 1, 1, 1, 1, 1, 1, 1, 1, 1, 1, 1, 1, 1,
    1, 1, 1, 1, 1, 1, 1,
];

/// `STRETCH_COUNT[i]` tells how many consecutive probabilities, from one half upwards, have the
/// logit `i`.
pub const STRETCH_COUNT: [u8; 711] = [
    64, 128, 128, 128, 128, 128, 127, 128, 127, 128, 127, 127, 127, 127, 126, 126, 126, 126, 126,
    125, 125, 124, 125, 124, 123, 123, 123, 123, 122, 122, 121, 121, 120, 120, 119, 119, 118, 118,
    118, 116, 117, 115, 116, 114, 114, 113, 113, 112, 112, 111, 110, 110, 109, 108, 108, 107, 106,
    106, 105, 104, 104, 102, 103, 101, 101, 100, 99, 98, 98, 97, 96, 96, 94, 94, 94, 92, 92, 91, 90,
    89, 89, 88, 87, 86, 86, 84, 84, 84, 82, 82, 81, 80, 79, 79, 78, 77, 76, 76, 75, 74, 73, 73, 72,
    71, 70, 70, 69, 68, 67, 67, 66, 65, 65, 64, 63, 62, 62, 61, 61, 59, 59, 59, 57, 58, 56, 56, 55,
    54, 54, 53, 52, 52, 51, 51, 50, 49, 49, 48, 48, 47, 47, 45, 46, 44, 45, 43, 43, 43, 42, 41, 41,
    40, 40, 40, 39, 38, 38, 37, 37, 36, 36, 36, 35, 34, 34, 34, 33, 32, 33, 32, 31, 31, 30, 31, 29,
    30, 28, 29, 28, 28, 27, 27, 27, 26, 26, 25, 26, 24, 25, 24, 24, 23, 23, 23, 23, 22, 22, 21, 22,
    21, 20, 21, 20, 19, 20, 19, 19, 19, 18, 18, 18, 18, 17, 17, 17, 17, 16, 16, 16, 16, 15, 15, 15,
    15, 15, 14, 14, 14, 14, 13, 14, 13, 13, 13, 12, 13, 12, 12, 12, 11, 12, 11, 11, 11, 11, 11, 10,
    11, 10, 10, 10, 10, 9, 10, 9, 9, 9, 9, 9, 8, 9, 8, 9, 8, 8, 8, 7, 8, 8, 7, 7, 8, 7, 7, 7, 6, 7,
    7, 6, 6, 7, 6, 6, 6, 6, 6, 6, 5, 6, 5, 6, 5, 5, 5, 5, 5, 5, 5, 5, 5, 4, 5, 4, 5, 4, 4, 5, 4, 4,
    4, 4, 4, 4, 3, 4, 4, 3, 4, 4, 3, 3, 4, 3, 3, 3, 4, 3, 3, 3, 3, 3, 3, 2, 3, 3, 3, 2, 3, 2, 3, 3,
    2, 2, 3, 2, 2, 3, 2, 2, 2, 2, 3, 2, 2, 2, 2, 2, 2, 1, 2, 2, 2, 2, 1, 2, 2, 2, 1, 2, 1, 2, 2, 1,
    2, 1, 2, 1, 1, 2, 1, 1, 2, 1, 1, 2, 1, 1, 1, 1, 2, 1, 1, 1, 1, 1, 1, 1, 1, 1, 1, 1, 1, 1, 1, 1,
    1, 1, 1, 1, 1, 0, 1, 1, 1, 1, 0, 1, 1, 1, 0, 1, 1, 1, 0, 1, 1, 0, 1, 1, 0, 1, 0, 1, 1, 0, 1, 0,
    1, 0, 1, 0, 1, 0, 1, 0, 1, 0, 1, 0, 1, 0, 1, 0, 1, 0, 0, 1, 0, 1, 0, 0, 1, 0, 1, 0, 0, 1, 0, 0,
    1, 0, 0, 1, 0, 0, 1, 0, 0, 0, 1, 0, 0, 1, 0, 0, 0, 1, 0, 0, 0, 1, 0, 0, 0, 1, 0, 0, 0, 0, 1, 0,
    0, 0, 0, 1, 0, 0, 0, 0, 1, 0, 0, 0, 0, 0, 1, 0, 0, 0, 0, 0, 1, 0, 0, 0, 0, 0, 0, 1, 0, 0, 0, 0,
    0, 0, 0, 1, 0, 0, 0, 0, 0, 0, 0, 0, 0, 1, 0, 0, 0, 0, 0, 0, 0, 0, 0, 1, 0, 0, 0, 0, 0, 0, 0, 0,
    0, 0, 0, 0, 1, 0, 0, 0, 0, 0, 0, 0, 0, 0, 0, 0, 0, 0, 0, 0, 1, 0, 0, 0, 0, 0, 0, 0, 0, 0, 0, 0,
    0, 0, 0, 0, 0, 0, 0, 0, 0, 0, 1, 0, 0, 0, 0, 0, 0, 0, 0, 0, 0, 0, 0, 0, 0, 0, 0, 0, 0, 0, 0, 0,
    0, 0, 0, 0, 0, 0, 0, 0, 0, 0, 1, 0, 0, 0, 0, 0, 0, 0, 0, 0, 0, 0, 0, 0, 0, 0, 0, 0, 0, 0, 0, 0,
    0, 0, 0, 0, 0, 0, 0, 0, 0, 0, 0, 0, 0, 0, 0, 0, 0, 0, 0, 0, 0, 0, 0, 0, 0, 0, 0, 0, 0, 0, 0, 0,
    0, 0, 0, 0, 0, 0, 0, 0, 0, 0, 0, 0, 0, 0, 0, 0, 0, 1,
];

/// State transition table for bit histories.
///
/// A state has four entries: the next state after a 0, the next state after a 1, and the two
/// counts `n0` and `n1` of zeros and ones that the state stands for.
pub const STATE_TABLE: [u8; 1024] = [
    1, 2, 0, 0, 3, 5, 1, 0, 4, 6, 0, 1, 7, 9, 2, 0,
    8, 11, 1, 1, 8, 11, 1, 1, 10, 12, 0, 2, 13, 15, 3, 0,
    14, 17, 2, 1, 14, 17, 2, 1, 16, 19, 1, 2, 16, 19, 1, 2,
    18, 20, 0, 3, 21, 23, 4, 0, 22, 25, 3, 1, 22, 25, 3, 1,
    24, 27, 2, 2, 24, 27, 2, 2, 26, 29, 1, 3, 26, 29, 1, 3,
    28, 30, 0, 4, 31, 33, 5, 0, 32, 35, 4, 1, 32, 35, 4, 1,
    34, 37, 3, 2, 34, 37, 3, 2, 36, 39, 2, 3, 36, 39, 2, 3,
    38, 41, 1, 4, 38, 41, 1, 4, 40, 42, 0, 5, 43, 33, 6, 0,
    44, 47, 5, 1, 44, 47, 5, 1, 46, 49, 4, 2, 46, 49, 4, 2,
    48, 51, 3, 3, 48, 51, 3, 3, 50, 53, 2, 4, 50, 53, 2, 4,
    52, 55, 1, 5, 52, 55, 1, 5, 40, 56, 0, 6, 57, 45, 7, 0,
    58, 47, 6, 1, 58, 47, 6, 1, 60, 63, 5, 2, 60, 63, 5, 2,
    62, 65, 4, 3, 62, 65, 4, 3, 64, 67, 3, 4, 64, 67, 3, 4,
    66, 69, 2, 5, 66, 69, 2, 5, 52, 71, 1, 6, 52, 71, 1, 6,
    54, 72, 0, 7, 73, 59, 8, 0, 74, 61, 7, 1, 74, 61, 7, 1,
    76, 63, 6, 2, 76, 63, 6, 2, 78, 81, 5, 3, 78, 81, 5, 3,
    80, 83, 4, 4, 80, 83, 4, 4, 82, 85, 3, 5, 82, 85, 3, 5,
    66, 87, 2, 6, 66, 87, 2, 6, 68, 89, 1, 7, 68, 89, 1, 7,
    70, 90, 0, 8, 91, 59, 9, 0, 92, 77, 8, 1, 92, 77, 8, 1,
    94, 79, 7, 2, 94, 79, 7, 2, 96, 81, 6, 3, 96, 81, 6, 3,
    98, 101, 5, 4, 98, 101, 5, 4, 100, 103, 4, 5, 100, 103, 4, 5,
    82, 105, 3, 6, 82, 105, 3, 6, 84, 107, 2, 7, 84, 107, 2, 7,
    86, 109, 1, 8, 86, 109, 1, 8, 70, 110, 0, 9, 111, 59, 10, 0,
    112, 77, 9, 1, 112, 77, 9, 1, 114, 97, 8, 2, 114, 97, 8, 2,
    116, 99, 7, 3, 116, 99, 7, 3, 62, 101, 6, 4, 62, 101, 6, 4,
    80, 83, 5, 5, 80, 83, 5, 5, 100, 67, 4, 6, 100, 67, 4, 6,
    102, 119, 3, 7, 102, 119, 3, 7, 104, 121, 2, 8, 104, 121, 2, 8,
    86, 123, 1, 9, 86, 123, 1, 9, 70, 124, 0, 10, 125, 59, 11, 0,
    126, 77, 10, 1, 126, 77, 10, 1, 128, 97, 9, 2, 128, 97, 9, 2,
    60, 63, 8, 3, 60, 63, 8, 3, 66, 69, 3, 8, 66, 69, 3, 8,
    104, 131, 2, 9, 104, 131, 2, 9, 86, 133, 1, 10, 86, 133, 1, 10,
    70, 134, 0, 11, 135, 59, 12, 0, 136, 77, 11, 1, 136, 77, 11, 1,
    138, 97, 10, 2, 138, 97, 10, 2, 104, 141, 2, 10, 104, 141, 2, 10,
    86, 143, 1, 11, 86, 143, 1, 11, 70, 144, 0, 12, 145, 59, 13, 0,
    146, 77, 12, 1, 146, 77, 12, 1, 148, 97, 11, 2, 148, 97, 11, 2,
    104, 151, 2, 11, 104, 151, 2, 11, 86, 153, 1, 12, 86, 153, 1, 12,
    70, 154, 0, 13, 155, 59, 14, 0, 156, 77, 13, 1, 156, 77, 13, 1,
    158, 97, 12, 2, 158, 97, 12, 2, 104, 161, 2, 12, 104, 161, 2, 12,
    86, 163, 1, 13, 86, 163, 1, 13, 70, 164, 0, 14, 165, 59, 15, 0,
    166, 77, 14, 1, 166, 77, 14, 1, 168, 97, 13, 2, 168, 97, 13, 2,
    104, 171, 2, 13, 104, 171, 2, 13, 86, 173, 1, 14, 86, 173, 1, 14,
    70, 174, 0, 15, 175, 59, 16, 0, 176, 77, 15, 1, 176, 77, 15, 1,
    178, 97, 14, 2, 178, 97, 14, 2, 104, 181, 2, 14, 104, 181, 2, 14,
    86, 183, 1, 15, 86, 183, 1, 15, 70, 184, 0, 16, 185, 59, 17, 0,
    186, 77, 16, 1, 186, 77, 16, 1, 74, 97, 15, 2, 74, 97, 15, 2,
    104, 89, 2, 15, 104, 89, 2, 15, 86, 187, 1, 16, 86, 187, 1, 16,
    70, 188, 0, 17, 189, 59, 18, 0, 190, 77, 17, 1, 86, 191, 1, 17,
    70, 192, 0, 18, 193, 59, 19, 0, 194, 77, 18, 1, 86, 195, 1, 18,
    70, 196, 0, 19, 193, 59, 20, 0, 197, 77, 19, 1, 86, 198, 1, 19,
    70, 196, 0, 20, 199, 77, 20, 1, 86, 200, 1, 20, 201, 77, 21, 1,
    86, 202, 1, 21, 203, 77, 22, 1, 86, 204, 1, 22, 205, 77, 23, 1,
    86, 206, 1, 23, 207, 77, 24, 1, 86, 208, 1, 24, 209, 77, 25, 1,
    86, 210, 1, 25, 211, 77, 26, 1, 86, 212, 1, 26, 213, 77, 27, 1,
    86, 214, 1, 27, 215, 77, 28, 1, 86, 216, 1, 28, 217, 77, 29, 1,
    86, 218, 1, 29, 219, 77, 30, 1, 86, 220, 1, 30, 221, 77, 31, 1,
    86, 222, 1, 31, 223, 77, 32, 1, 86, 224, 1, 32, 225, 77, 33, 1,
    86, 226, 1, 33, 227, 77, 34, 1, 86, 228, 1, 34, 229, 77, 35, 1,
    86, 230, 1, 35, 231, 77, 36, 1, 86, 232, 1, 36, 233, 77, 37, 1,
    86, 234, 1, 37, 235, 77, 38, 1, 86, 236, 1, 38, 237, 77, 39, 1,
    86, 238, 1, 39, 239, 77, 40, 1, 86, 240, 1, 40, 241, 77, 41, 1,
    86, 242, 1, 41, 243, 77, 42, 1, 86, 244, 1, 42, 245, 77, 43, 1,
    86, 246, 1, 43, 247, 77, 44, 1, 86, 248, 1, 44, 249, 77, 45, 1,
    86, 250, 1, 45, 251, 77, 46, 1, 86, 252, 1, 46, 253, 77, 47, 1,
    86, 254, 1, 47, 253, 77, 48, 1, 86, 254, 1, 48, 0, 0, 0, 0,
];

/// Entry `k` of `SQUASH_TABLE`.
#[verifier::opaque]
pub open spec fn squash_entry(k: int) -> int {
    SQUASH_TABLE@[k] as int
}

/// Reads `SQUASH_TABLE`.
pub fn read_squash_entry(k: usize) -> (r: u16)
    requires
        k < 666,
    ensures
        r == squash_entry(k as int),
{
    reveal(squash_entry);
    SQUASH_TABLE[k]
}

/// Entry `i` of `STRETCH_COUNT`.
#[verifier::opaque]
pub open spec fn stretch_count(i: int) -> int {
    STRETCH_COUNT@[i] as int
}

/// Reads `STRETCH_COUNT`.
pub fn read_stretch_count(i: usize) -> (r: u8)
    requires
        i < 711,
    ensures
        r == stretch_count(i as int),
{
    reveal(stretch_count);
    STRETCH_COUNT[i]
}

/// Entry `k` of `STATE_TABLE`.
#[verifier::opaque]
pub open spec fn state_entry(k: int) -> u8 {
    STATE_TABLE@[k]
}

/// Reads `STATE_TABLE`.
pub fn read_state_entry(k: usize) -> (r: u8)
    requires
        k < 1024,
    ensures
        r == state_entry(k as int),
{
    reveal(state_entry);
    STATE_TABLE[k]
}

/// No entry of `s` from index `from` up to `to` is larger than the one before it.
spec fn descends(s: Seq<u16>, from: int, to: int) -> bool
    decreases to - from,
{
    from >= to || (s[from] >= s[from + 1] && descends(s, from + 1, to))
}

proof fn lemma_descends_split(s: Seq<u16>, from: int, mid: int, to: int)
    requires
        from <= mid <= to,
        descends(s, from, mid),
        descends(s, mid, to),
    ensures
        descends(s, from, to),
    decreases mid - from,
{
    if from < mid {
        lemma_descends_split(s, from + 1, mid, to);
    }
}

proof fn lemma_descends_index(s: Seq<u16>, from: int, to: int, i: int, j: int)
    requires
        descends(s, from, to),
        from <= i <= j <= to,
    ensures
        s[i] >= s[j],
    decreases j - from,
{
    if from < i {
        lemma_descends_index(s, from + 1, to, i, j);
    } else if i < j {
        lemma_descends_index(s, from + 1, to, i + 1, j);
    }
}

#[verifier::spinoff_prover]
proof fn lemma_squash_table_descends_to_111()
    ensures
        descends(SQUASH_TABLE@, 0, 111),
{
    let s = SQUASH_TABLE@;
    assert(descends(s, 0, 37)) by {
        reveal_with_fuel(descends, 38);
    }
    assert(descends(s, 37, 74)) by {
        reveal_with_fuel(descends, 38);
    }
    lemma_descends_split(s, 0, 37, 74);
    assert(descends(s, 74, 111)) by {
        reveal_with_fuel(descends, 38);
    }
    lemma_descends_split(s, 0, 74, 111);
}

#[verifier::spinoff_prover]
proof fn lemma_squash_table_descends_to_222()
    ensures
        descends(SQUASH_TABLE@, 111, 222),
{
    let s = SQUASH_TABLE@;
    assert(descends(s, 111, 148)) by {
        reveal_with_fuel(descends, 38);
    }
    assert(descends(s, 148, 185)) by {
        reveal_with_fuel(descends, 38);
    }
    lemma_descends_split(s, 111, 148, 185);
    assert(descends(s, 185, 222)) by {
        reveal_with_fuel(descends, 38);
    }
    lemma_descends_split(s, 111, 185, 222);
}

#[verifier::spinoff_prover]
proof fn lemma_squash_table_descends_to_333()
    ensures
        descends(SQUASH_TABLE@, 222, 333),
{
    let s = SQUASH_TABLE@;
    assert(descends(s, 222, 259)) by {
        reveal_with_fuel(descends, 38);
    }
    assert(descends(s, 259, 296)) by {
        reveal_with_fuel(descends, 38);
    }
    lemma_descends_split(s, 222, 259, 296);
    assert(descends(s, 296, 333)) by {
        reveal_with_fuel(descends, 38);
    }
    lemma_descends_split(s, 222, 296, 333);
}

#[verifier::spinoff_prover]
proof fn lemma_squash_table_descends_to_444()
    ensures
        descends(SQUASH_TABLE@, 333, 444),
{
    let s = SQUASH_TABLE@;
    assert(descends(s, 333, 370)) by {
        reveal_with_fuel(descends, 38);
    }
    assert(descends(s, 370, 407)) by {
        reveal_with_fuel(descends, 38);
    }
    lemma_descends_split(s, 333, 370, 407);
    assert(descends(s, 407, 444)) by {
        reveal_with_fuel(descends, 38);
    }
    lemma_descends_split(s, 333, 407, 444);
}

#[verifier::spinoff_prover]
proof fn lemma_squash_table_descends_to_555()
    ensures
        descends(SQUASH_TABLE@, 444, 555),
{
    let s = SQUASH_TABLE@;
    assert(descends(s, 444, 481)) by {
        reveal_with_fuel(descends, 38);
    }
    assert(descends(s, 481, 518)) by {
        reveal_with_fuel(descends, 38);
    }
    lemma_descends_split(s, 444, 481, 518);
    assert(descends(s, 518, 555)) by {
        reveal_with_fuel(descends, 38);
    }
    lemma_descends_split(s, 444, 518, 555);
}

#[verifier::spinoff_prover]
proof fn lemma_squash_table_descends_to_665()
    ensures
        descends(SQUASH_TABLE@, 555, 665),
{
    let s = SQUASH_TABLE@;
    assert(descends(s, 555, 592)) by {
        reveal_with_fuel(descends, 38);
    }
    assert(descends(s, 592, 629)) by {
        reveal_with_fuel(descends, 38);
    }
    lemma_descends_split(s, 555, 592, 629);
    assert(descends(s, 629, 665)) by {
        reveal_with_fuel(descends, 38);
    }
    lemma_descends_split(s, 555, 629, 665);
}

#[verifier::spinoff_prover]
proof fn lemma_squash_table_descends()
    ensures
        descends(SQUASH_TABLE@, 0, 665),
{
    let s = SQUASH_TABLE@;
    lemma_squash_table_descends_to_111();
    lemma_squash_table_descends_to_222();
    lemma_descends_split(s, 0, 111, 222);
    lemma_squash_table_descends_to_333();
    lemma_descends_split(s, 0, 222, 333);
    lemma_squash_table_descends_to_444();
    lemma_descends_split(s, 0, 333, 444);
    lemma_squash_table_descends_to_555();
    lemma_descends_split(s, 0, 444, 555);
    lemma_squash_table_descends_to_665();
    lemma_descends_split(s, 0, 555, 665);
}

/// The entries of `SQUASH_TABLE` fall from one half to the least probability.
pub proof fn lemma_squash_table_falls(i: int, j: int)
    requires
        0 <= i <= j < 666,
    ensures
        16384 >= squash_entry(i) >= squash_entry(j) >= 1,
        squash_entry(0) == 16384,
        squash_entry(1) == 16256,
{
    reveal(squash_entry);
    lemma_squash_table_descends();
    lemma_descends_index(SQUASH_TABLE@, 0, 665, 0, i);
    lemma_descends_index(SQUASH_TABLE@, 0, 665, i, j);
    lemma_descends_index(SQUASH_TABLE@, 0, 665, j, 665);
}

/// The sum of the first `n` run lengths of `STRETCH_COUNT`.
pub open spec fn run_total(n: int) -> int
    decreases n,
{
    if n <= 0 {
        0
    } else {
        run_total(n - 1) + stretch_count(n - 1)
    }
}

/// The run lengths cover the probabilities from one half upwards exactly.
pub proof fn lemma_run_total()
    ensures
        run_total(1) == 64,
        run_total(710) == 16383,
        run_total(711) == 16384,
{
    assert(run_total(40) == 4901) by {
        reveal(stretch_count);
        reveal_with_fuel(run_total, 41);
    }
    assert(run_total(80) == 9042) by {
        reveal(stretch_count);
        reveal_with_fuel(run_total, 41);
    }
    assert(run_total(120) == 11997) by {
        reveal(stretch_count);
        reveal_with_fuel(run_total, 41);
    }
    assert(run_total(160) == 13880) by {
        reveal(stretch_count);
        reveal_with_fuel(run_total, 41);
    }
    assert(run_total(200) == 14995) by {
        reveal(stretch_count);
        reveal_with_fuel(run_total, 41);
    }
    assert(run_total(240) == 15625) by {
        reveal(stretch_count);
        reveal_with_fuel(run_total, 41);
    }
    assert(run_total(280) == 15973) by {
        reveal(stretch_count);
        reveal_with_fuel(run_total, 41);
    }
    assert(run_total(320) == 16163) by {
        reveal(stretch_count);
        reveal_with_fuel(run_total, 41);
    }
    assert(run_total(360) == 16265) by {
        reveal(stretch_count);
        reveal_with_fuel(run_total, 41);
    }
    assert(run_total(400) == 16320) by {
        reveal(stretch_count);
        reveal_with_fuel(run_total, 41);
    }
    assert(run_total(440) == 16350) by {
        reveal(stretch_count);
        reveal_with_fuel(run_total, 41);
    }
    assert(run_total(480) == 16366) by {
        reveal(stretch_count);
        reveal_with_fuel(run_total, 41);
    }
    assert(run_total(520) == 16374) by {
        reveal(stretch_count);
        reveal_with_fuel(run_total, 41);
    }
    assert(run_total(560) == 16379) by {
        reveal(stretch_count);
        reveal_with_fuel(run_total, 41);
    }
    assert(run_total(600) == 16381) by {
        reveal(stretch_count);
        reveal_with_fuel(run_total, 41);
    }
    assert(run_total(640) == 16383) by {
        reveal(stretch_count);
        reveal_with_fuel(run_total, 41);
    }
    assert(run_total(680) == 16383) by {
        reveal(stretch_count);
        reveal_with_fuel(run_total, 41);
    }
    assert(run_total(710) == 16383) by {
        reveal(stretch_count);
        reveal_with_fuel(run_total, 31);
    }
    assert(run_total(711) == 16384 && run_total(1) == 64) by {
        reveal(stretch_count);
        reveal_with_fuel(run_total, 2);
    }
}

/// Sums over more runs are no smaller.
pub proof fn lemma_run_total_monotonic(i: int, j: int)
    requires
        i <= j,
    ensures
        run_total(i) <= run_total(j),
    decreases j - i,
{
    reveal(stretch_count);
    if 0 < j && i < j {
        lemma_run_total_monotonic(i, j - 1);
    }
}

} // verus!
