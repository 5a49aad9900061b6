//! Seed inverses modulo 256 for odd residues.

use vstd::prelude::*;

verus! {

/// Entry `i` holds the inverse of `2i + 1` modulo 256.
pub const BINVERT_TABLE: [u8; 128] = [
    0x01, 0xAB, 0xCD, 0xB7, 0x39, 0xA3, 0xC5, 0xEF, 0xF1, 0x1B, 0x3D, 0xA7, 0x29, 0x13, 0x35, 0xDF,
    0xE1, 0x8B, 0xAD, 0x97, 0x19, 0x83, 0xA5, 0xCF, 0xD1, 0xFB, 0x1D, 0x87, 0x09, 0xF3, 0x15, 0xBF,
    0xC1, 0x6B, 0x8D, 0x77, 0xF9, 0x63, 0x85, 0xAF, 0xB1, 0xDB, 0xFD, 0x67, 0xE9, 0xD3, 0xF5, 0x9F,
    0xA1, 0x4B, 0x6D, 0x57, 0xD9, 0x43, 0x65, 0x8F, 0x91, 0xBB, 0xDD, 0x47, 0xC9, 0xB3, 0xD5, 0x7F,
    0x81, 0x2B, 0x4D, 0x37, 0xB9, 0x23, 0x45, 0x6F, 0x71, 0x9B, 0xBD, 0x27, 0xA9, 0x93, 0xB5, 0x5F,
    0x61, 0x0B, 0x2D, 0x17, 0x99, 0x03, 0x25, 0x4F, 0x51, 0x7B, 0x9D, 0x07, 0x89, 0x73, 0x95, 0x3F,
    0x41, 0xEB, 0x0D, 0xF7, 0x79, 0xE3, 0x05, 0x2F, 0x31, 0x5B, 0x7D, 0xE7, 0x69, 0x53, 0x75, 0x1F,
    0x21, 0xCB, 0xED, 0xD7, 0x59, 0xC3, 0xE5, 0x0F, 0x11, 0x3B, 0x5D, 0xC7, 0x49, 0x33, 0x55, 0xFF,
];

/// The inverse modulo 256 of the odd residue `2 * index + 1`.
pub fn seed_inverse(index: usize) -> (r: u8)
    requires
        index < 128,
    ensures
        (r * (2 * index + 1)) % 256 == 1,
{
    let r = BINVERT_TABLE[index];
    proof {
        lemma_table_entry(index as int);
    }
    r
}

/// Every entry of the table inverts its odd residue modulo 256.
pub proof fn lemma_table_entry(i: int)
    requires
        0 <= i < 128,
    ensures
        (BINVERT_TABLE[i] * (2 * i + 1)) % 256 == 1,
{
    if i == 0 {
        assert(BINVERT_TABLE[0] * 1 == 1);
    } else if i == 1 {
        assert(BINVERT_TABLE[1] * 3 == 513);
    } else if i == 2 {
        assert(BINVERT_TABLE[2] * 5 == 1025);
    } else if i == 3 {
        assert(BINVERT_TABLE[3] * 7 == 1281);
    } else if i == 4 {
        assert(BINVERT_TABLE[4] * 9 == 513);
    } else if i == 5 {
        assert(BINVERT_TABLE[5] * 11 == 1793);
    } else if i == 6 {
        assert(BINVERT_TABLE[6] * 13 == 2561);
    } else if i == 7 {
        assert(BINVERT_TABLE[7] * 15 == 3585);
    } else if i == 8 {
        assert(BINVERT_TABLE[8] * 17 == 4097);
    } else if i == 9 {
        assert(BINVERT_TABLE[9] * 19 == 513);
    } else if i == 10 {
        assert(BINVERT_TABLE[10] * 21 == 1281);
    } else if i == 11 {
        assert(BINVERT_TABLE[11] * 23 == 3841);
    } else if i == 12 {
        assert(BINVERT_TABLE[12] * 25 == 1025);
    } else if i == 13 {
        assert(BINVERT_TABLE[13] * 27 == 513);
    } else if i == 14 {
        assert(BINVERT_TABLE[14] * 29 == 1537);
    } else if i == 15 {
        assert(BINVERT_TABLE[15] * 31 == 6913);
    } else if i == 16 {
        assert(BINVERT_TABLE[16] * 33 == 7425);
    } else if i == 17 {
        assert(BINVERT_TABLE[17] * 35 == 4865);
    } else if i == 18 {
        assert(BINVERT_TABLE[18] * 37 == 6401);
    } else if i == 19 {
        assert(BINVERT_TABLE[19] * 39 == 5889);
    } else if i == 20 {
        assert(BINVERT_TABLE[20] * 41 == 1025);
    } else if i == 21 {
        assert(BINVERT_TABLE[21] * 43 == 5633);
    } else if i == 22 {
        assert(BINVERT_TABLE[22] * 45 == 7425);
    } else if i == 23 {
        assert(BINVERT_TABLE[23] * 47 == 9729);
    } else if i == 24 {
        assert(BINVERT_TABLE[24] * 49 == 10241);
    } else if i == 25 {
        assert(BINVERT_TABLE[25] * 51 == 12801);
    } else if i == 26 {
        assert(BINVERT_TABLE[26] * 53 == 1537);
    } else if i == 27 {
        assert(BINVERT_TABLE[27] * 55 == 7425);
    } else if i == 28 {
        assert(BINVERT_TABLE[28] * 57 == 513);
    } else if i == 29 {
        assert(BINVERT_TABLE[29] * 59 == 14337);
    } else if i == 30 {
        assert(BINVERT_TABLE[30] * 61 == 1281);
    } else if i == 31 {
        assert(BINVERT_TABLE[31] * 63 == 12033);
    } else if i == 32 {
        assert(BINVERT_TABLE[32] * 65 == 12545);
    } else if i == 33 {
        assert(BINVERT_TABLE[33] * 67 == 7169);
    } else if i == 34 {
        assert(BINVERT_TABLE[34] * 69 == 9729);
    } else if i == 35 {
        assert(BINVERT_TABLE[35] * 71 == 8449);
    } else if i == 36 {
        assert(BINVERT_TABLE[36] * 73 == 18177);
    } else if i == 37 {
        assert(BINVERT_TABLE[37] * 75 == 7425);
    } else if i == 38 {
        assert(BINVERT_TABLE[38] * 77 == 10241);
    } else if i == 39 {
        assert(BINVERT_TABLE[39] * 79 == 13825);
    } else if i == 40 {
        assert(BINVERT_TABLE[40] * 81 == 14337);
    } else if i == 41 {
        assert(BINVERT_TABLE[41] * 83 == 18177);
    } else if i == 42 {
        assert(BINVERT_TABLE[42] * 85 == 21505);
    } else if i == 43 {
        assert(BINVERT_TABLE[43] * 87 == 8961);
    } else if i == 44 {
        assert(BINVERT_TABLE[44] * 89 == 20737);
    } else if i == 45 {
        assert(BINVERT_TABLE[45] * 91 == 19201);
    } else if i == 46 {
        assert(BINVERT_TABLE[46] * 93 == 22785);
    } else if i == 47 {
        assert(BINVERT_TABLE[47] * 95 == 15105);
    } else if i == 48 {
        assert(BINVERT_TABLE[48] * 97 == 15617);
    } else if i == 49 {
        assert(BINVERT_TABLE[49] * 99 == 7425);
    } else if i == 50 {
        assert(BINVERT_TABLE[50] * 101 == 11009);
    } else if i == 51 {
        assert(BINVERT_TABLE[51] * 103 == 8961);
    } else if i == 52 {
        assert(BINVERT_TABLE[52] * 105 == 22785);
    } else if i == 53 {
        assert(BINVERT_TABLE[53] * 107 == 7169);
    } else if i == 54 {
        assert(BINVERT_TABLE[54] * 109 == 11009);
    } else if i == 55 {
        assert(BINVERT_TABLE[55] * 111 == 15873);
    } else if i == 56 {
        assert(BINVERT_TABLE[56] * 113 == 16385);
    } else if i == 57 {
        assert(BINVERT_TABLE[57] * 115 == 21505);
    } else if i == 58 {
        assert(BINVERT_TABLE[58] * 117 == 25857);
    } else if i == 59 {
        assert(BINVERT_TABLE[59] * 119 == 8449);
    } else if i == 60 {
        assert(BINVERT_TABLE[60] * 121 == 24321);
    } else if i == 61 {
        assert(BINVERT_TABLE[61] * 123 == 22017);
    } else if i == 62 {
        assert(BINVERT_TABLE[62] * 125 == 26625);
    } else if i == 63 {
        assert(BINVERT_TABLE[63] * 127 == 16129);
    } else if i == 64 {
        assert(BINVERT_TABLE[64] * 129 == 16641);
    } else if i == 65 {
        assert(BINVERT_TABLE[65] * 131 == 5633);
    } else if i == 66 {
        assert(BINVERT_TABLE[66] * 133 == 10241);
    } else if i == 67 {
        assert(BINVERT_TABLE[67] * 135 == 7425);
    } else if i == 68 {
        assert(BINVERT_TABLE[68] * 137 == 25345);
    } else if i == 69 {
        assert(BINVERT_TABLE[69] * 139 == 4865);
    } else if i == 70 {
        assert(BINVERT_TABLE[70] * 141 == 9729);
    } else if i == 71 {
        assert(BINVERT_TABLE[71] * 143 == 15873);
    } else if i == 72 {
        assert(BINVERT_TABLE[72] * 145 == 16385);
    } else if i == 73 {
        assert(BINVERT_TABLE[73] * 147 == 22785);
    } else if i == 74 {
        assert(BINVERT_TABLE[74] * 149 == 28161);
    } else if i == 75 {
        assert(BINVERT_TABLE[75] * 151 == 5889);
    } else if i == 76 {
        assert(BINVERT_TABLE[76] * 153 == 25857);
    } else if i == 77 {
        assert(BINVERT_TABLE[77] * 155 == 22785);
    } else if i == 78 {
        assert(BINVERT_TABLE[78] * 157 == 28417);
    } else if i == 79 {
        assert(BINVERT_TABLE[79] * 159 == 15105);
    } else if i == 80 {
        assert(BINVERT_TABLE[80] * 161 == 15617);
    } else if i == 81 {
        assert(BINVERT_TABLE[81] * 163 == 1793);
    } else if i == 82 {
        assert(BINVERT_TABLE[82] * 165 == 7425);
    } else if i == 83 {
        assert(BINVERT_TABLE[83] * 167 == 3841);
    } else if i == 84 {
        assert(BINVERT_TABLE[84] * 169 == 25857);
    } else if i == 85 {
        assert(BINVERT_TABLE[85] * 171 == 513);
    } else if i == 86 {
        assert(BINVERT_TABLE[86] * 173 == 6401);
    } else if i == 87 {
        assert(BINVERT_TABLE[87] * 175 == 13825);
    } else if i == 88 {
        assert(BINVERT_TABLE[88] * 177 == 14337);
    } else if i == 89 {
        assert(BINVERT_TABLE[89] * 179 == 22017);
    } else if i == 90 {
        assert(BINVERT_TABLE[90] * 181 == 28417);
    } else if i == 91 {
        assert(BINVERT_TABLE[91] * 183 == 1281);
    } else if i == 92 {
        assert(BINVERT_TABLE[92] * 185 == 25345);
    } else if i == 93 {
        assert(BINVERT_TABLE[93] * 187 == 21505);
    } else if i == 94 {
        assert(BINVERT_TABLE[94] * 189 == 28161);
    } else if i == 95 {
        assert(BINVERT_TABLE[95] * 191 == 12033);
    } else if i == 96 {
        assert(BINVERT_TABLE[96] * 193 == 12545);
    } else if i == 97 {
        assert(BINVERT_TABLE[97] * 195 == 45825);
    } else if i == 98 {
        assert(BINVERT_TABLE[98] * 197 == 2561);
    } else if i == 99 {
        assert(BINVERT_TABLE[99] * 199 == 49153);
    } else if i == 100 {
        assert(BINVERT_TABLE[100] * 201 == 24321);
    } else if i == 101 {
        assert(BINVERT_TABLE[101] * 203 == 46081);
    } else if i == 102 {
        assert(BINVERT_TABLE[102] * 205 == 1025);
    } else if i == 103 {
        assert(BINVERT_TABLE[103] * 207 == 9729);
    } else if i == 104 {
        assert(BINVERT_TABLE[104] * 209 == 10241);
    } else if i == 105 {
        assert(BINVERT_TABLE[105] * 211 == 19201);
    } else if i == 106 {
        assert(BINVERT_TABLE[106] * 213 == 26625);
    } else if i == 107 {
        assert(BINVERT_TABLE[107] * 215 == 49665);
    } else if i == 108 {
        assert(BINVERT_TABLE[108] * 217 == 22785);
    } else if i == 109 {
        assert(BINVERT_TABLE[109] * 219 == 18177);
    } else if i == 110 {
        assert(BINVERT_TABLE[110] * 221 == 25857);
    } else if i == 111 {
        assert(BINVERT_TABLE[111] * 223 == 6913);
    } else if i == 112 {
        assert(BINVERT_TABLE[112] * 225 == 7425);
    } else if i == 113 {
        assert(BINVERT_TABLE[113] * 227 == 46081);
    } else if i == 114 {
        assert(BINVERT_TABLE[114] * 229 == 54273);
    } else if i == 115 {
        assert(BINVERT_TABLE[115] * 231 == 49665);
    } else if i == 116 {
        assert(BINVERT_TABLE[116] * 233 == 20737);
    } else if i == 117 {
        assert(BINVERT_TABLE[117] * 235 == 45825);
    } else if i == 118 {
        assert(BINVERT_TABLE[118] * 237 == 54273);
    } else if i == 119 {
        assert(BINVERT_TABLE[119] * 239 == 3585);
    } else if i == 120 {
        assert(BINVERT_TABLE[120] * 241 == 4097);
    } else if i == 121 {
        assert(BINVERT_TABLE[121] * 243 == 14337);
    } else if i == 122 {
        assert(BINVERT_TABLE[122] * 245 == 22785);
    } else if i == 123 {
        assert(BINVERT_TABLE[123] * 247 == 49153);
    } else if i == 124 {
        assert(BINVERT_TABLE[124] * 249 == 18177);
    } else if i == 125 {
        assert(BINVERT_TABLE[125] * 251 == 12801);
    } else if i == 126 {
        assert(BINVERT_TABLE[126] * 253 == 21505);
    } else {
        assert(BINVERT_TABLE[127] * 255 == 65025);
    }
}

} // verus!
