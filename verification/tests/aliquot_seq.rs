use aliquot::{AliquotSeq, Generator};

fn test_gen(gener: &mut Generator, n: u64, exp: AliquotSeq) {
    assert_eq!(gener.aliquot_seq(n), exp);
}

/// A generator bounded the way a 16-bit numeric domain would bound it.
fn generator_16() -> Generator {
    Generator::with_params(u16::MAX as u64, 1_000_000, 1_000_000, false)
}

/// A generator bounded the way a 32-bit numeric domain would bound it.
fn generator_32() -> Generator {
    Generator::with_params(u32::MAX as u64, 1_000_000, 1_000_000, false)
}

#[test]
fn test_aliquot_seq_u16() {
    let mut gener = generator_16();
    test_gen(&mut gener, 2, AliquotSeq::PrimeNumber((2, 1)));
    test_gen(&mut gener, 3, AliquotSeq::PrimeNumber((3, 1)));
    test_gen(&mut gener, 5, AliquotSeq::PrimeNumber((5, 1)));
    test_gen(&mut gener, 6, AliquotSeq::PerfectNumber(6));
    test_gen(&mut gener, 7, AliquotSeq::PrimeNumber((7, 1)));
    test_gen(&mut gener, 11, AliquotSeq::PrimeNumber((11, 1)));
    test_gen(
        &mut gener,
        12,
        AliquotSeq::Convergent(vec![12, 16, 15, 9, 4, 3, 1]),
    );
    test_gen(&mut gener, 13, AliquotSeq::PrimeNumber((13, 1)));
    test_gen(&mut gener, 17, AliquotSeq::PrimeNumber((17, 1)));
    test_gen(&mut gener, 19, AliquotSeq::PrimeNumber((19, 1)));
    test_gen(&mut gener, 28, AliquotSeq::PerfectNumber(28));
    test_gen(&mut gener, 29, AliquotSeq::PrimeNumber((29, 1)));
    test_gen(
        &mut gener,
        30,
        AliquotSeq::Convergent(vec![
            30, 42, 54, 66, 78, 90, 144, 259, 45, 33, 15, 9, 4, 3, 1,
        ]),
    );
    test_gen(&mut gener, 31, AliquotSeq::PrimeNumber((31, 1)));
    test_gen(&mut gener, 41, AliquotSeq::PrimeNumber((41, 1)));
    test_gen(
        &mut gener,
        42,
        AliquotSeq::Convergent(vec![42, 54, 66, 78, 90, 144, 259, 45, 33, 15, 9, 4, 3, 1]),
    );
    test_gen(&mut gener, 43, AliquotSeq::PrimeNumber((43, 1)));
    test_gen(
        &mut gener,
        54,
        AliquotSeq::Convergent(vec![54, 66, 78, 90, 144, 259, 45, 33, 15, 9, 4, 3, 1]),
    );
    test_gen(
        &mut gener,
        60,
        AliquotSeq::Convergent(vec![60, 108, 172, 136, 134, 70, 74, 40, 50, 43, 1]),
    );
    test_gen(
        &mut gener,
        78,
        AliquotSeq::Convergent(vec![78, 90, 144, 259, 45, 33, 15, 9, 4, 3, 1]),
    );
    test_gen(
        &mut gener,
        90,
        AliquotSeq::Convergent(vec![90, 144, 259, 45, 33, 15, 9, 4, 3, 1]),
    );
    test_gen(&mut gener, 95, AliquotSeq::AspiringNumber(vec![95, 25, 6]));
    test_gen(
        &mut gener,
        96,
        AliquotSeq::Convergent(vec![96, 156, 236, 184, 176, 196, 203, 37, 1]),
    );
    test_gen(&mut gener, 220, AliquotSeq::AmicableNumber((220, 284)));
    test_gen(&mut gener, 284, AliquotSeq::AmicableNumber((284, 220)));
}

#[test]
fn test_aliquot_seq_u32() {
    let mut gener = generator_32();
    test_gen(&mut gener, 2, AliquotSeq::PrimeNumber((2, 1)));
    test_gen(&mut gener, 3, AliquotSeq::PrimeNumber((3, 1)));
    test_gen(&mut gener, 6, AliquotSeq::PerfectNumber(6));
    test_gen(&mut gener, 17, AliquotSeq::PrimeNumber((17, 1)));
    test_gen(&mut gener, 19, AliquotSeq::PrimeNumber((19, 1)));
    test_gen(&mut gener, 41, AliquotSeq::PrimeNumber((41, 1)));
    test_gen(&mut gener, 43, AliquotSeq::PrimeNumber((43, 1)));
    test_gen(&mut gener, 95, AliquotSeq::AspiringNumber(vec![95, 25, 6]));
    test_gen(&mut gener, 220, AliquotSeq::AmicableNumber((220, 284)));
    test_gen(&mut gener, 284, AliquotSeq::AmicableNumber((284, 220)));
    test_gen(
        &mut gener,
        1264460,
        AliquotSeq::SociableNumber(vec![1264460, 1547860, 1727636, 1305184]),
    );
    test_gen(
        &mut gener,
        276,
        AliquotSeq::Unknown(vec![
            276,
            396,
            696,
            1104,
            1872,
            3770,
            3790,
            3050,
            2716,
            2772,
            5964,
            10164,
            19628,
            19684,
            22876,
            26404,
            30044,
            33796,
            38780,
            54628,
            54684,
            111300,
            263676,
            465668,
            465724,
            465780,
            1026060,
            2325540,
            5335260,
            11738916,
            23117724,
            45956820,
            121129260,
            266485716,
            558454764,
            1092873236,
            1470806764,
            1471882804,
            1642613196,
            2737688884,
            2740114636,
            2791337780,
        ]),
    );
}

#[test]
fn test_aliquot_seq_u64() {
    let mut gener = Generator::new();
    test_gen(&mut gener, 2, AliquotSeq::PrimeNumber((2, 1)));
    test_gen(&mut gener, 3, AliquotSeq::PrimeNumber((3, 1)));
    test_gen(&mut gener, 6, AliquotSeq::PerfectNumber(6));
    test_gen(&mut gener, 17, AliquotSeq::PrimeNumber((17, 1)));
    test_gen(&mut gener, 19, AliquotSeq::PrimeNumber((19, 1)));
    test_gen(&mut gener, 41, AliquotSeq::PrimeNumber((41, 1)));
    test_gen(&mut gener, 43, AliquotSeq::PrimeNumber((43, 1)));
    test_gen(&mut gener, 95, AliquotSeq::AspiringNumber(vec![95, 25, 6]));
    test_gen(&mut gener, 220, AliquotSeq::AmicableNumber((220, 284)));
    test_gen(&mut gener, 284, AliquotSeq::AmicableNumber((284, 220)));
    test_gen(
        &mut gener,
        1264460,
        AliquotSeq::SociableNumber(vec![1264460, 1547860, 1727636, 1305184]),
    );
    test_gen(
        &mut gener,
        138,
        AliquotSeq::Convergent(vec![
            138,
            150,
            222,
            234,
            312,
            528,
            960,
            2088,
            3762,
            5598,
            6570,
            10746,
            13254,
            13830,
            19434,
            20886,
            21606,
            25098,
            26742,
            26754,
            40446,
            63234,
            77406,
            110754,
            171486,
            253458,
            295740,
            647748,
            1077612,
            1467588,
            1956812,
            2109796,
            1889486,
            953914,
            668966,
            353578,
            176792,
            254128,
            308832,
            502104,
            753216,
            1240176,
            2422288,
            2697920,
            3727264,
            3655076,
            2760844,
            2100740,
            2310856,
            2455544,
            3212776,
            3751064,
            3282196,
            2723020,
            3035684,
            2299240,
            2988440,
            5297320,
            8325080,
            11222920,
            15359480,
            19199440,
            28875608,
            25266172,
            19406148,
            26552604,
            40541052,
            54202884,
            72270540,
            147793668,
            228408732,
            348957876,
            508132204,
            404465636,
            303708376,
            290504024,
            312058216,
            294959384,
            290622016,
            286081174,
            151737434,
            75868720,
            108199856,
            101437396,
            76247552,
            76099654,
            42387146,
            21679318,
            12752594,
            7278382,
            3660794,
            1855066,
            927536,
            932464,
            1013592,
            1546008,
            2425752,
            5084088,
            8436192,
            13709064,
            20563656,
            33082104,
            57142536,
            99483384,
            245978376,
            487384824,
            745600776,
            1118401224,
            1677601896,
            2538372504,
            4119772776,
            8030724504,
            14097017496,
            21148436904,
            40381357656,
            60572036544,
            100039354704,
            179931895322,
            94685963278,
            51399021218,
            28358080762,
            18046051430,
            17396081338,
            8698040672,
            8426226964,
            6319670230,
            5422685354,
            3217383766,
            1739126474,
            996366646,
            636221402,
            318217798,
            195756362,
            101900794,
            54202694,
            49799866,
            24930374,
            17971642,
            11130830,
            8904682,
            4913018,
            3126502,
            1574810,
            1473382,
            736694,
            541162,
            312470,
            249994,
            127286,
            69898,
            34952,
            34708,
            26038,
            13994,
            7000,
            11720,
            14740,
            19532,
            16588,
            18692,
            14026,
            7016,
            6154,
            3674,
            2374,
            1190,
            1402,
            704,
            820,
            944,
            916,
            694,
            350,
            394,
            200,
            265,
            59,
            1,
        ]),
    );
}

#[test]
fn test_aliquot_seq_u128() {
    let mut gener = Generator::new();
    test_gen(&mut gener, 2, AliquotSeq::PrimeNumber((2, 1)));
    test_gen(&mut gener, 3, AliquotSeq::PrimeNumber((3, 1)));
    test_gen(&mut gener, 6, AliquotSeq::PerfectNumber(6));
    test_gen(&mut gener, 17, AliquotSeq::PrimeNumber((17, 1)));
    test_gen(&mut gener, 19, AliquotSeq::PrimeNumber((19, 1)));
    test_gen(&mut gener, 41, AliquotSeq::PrimeNumber((41, 1)));
    test_gen(&mut gener, 43, AliquotSeq::PrimeNumber((43, 1)));
    test_gen(&mut gener, 95, AliquotSeq::AspiringNumber(vec![95, 25, 6]));
    test_gen(&mut gener, 220, AliquotSeq::AmicableNumber((220, 284)));
    test_gen(&mut gener, 284, AliquotSeq::AmicableNumber((284, 220)));
    test_gen(
        &mut gener,
        1264460,
        AliquotSeq::SociableNumber(vec![1264460, 1547860, 1727636, 1305184]),
    );
}
