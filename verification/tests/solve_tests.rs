use reform::error::KernelError;
use reform::poly::raw::zp;

const P: u64 = 18446744073709551557;

fn matrix8() -> Vec<Vec<u64>> {
    vec![
        vec![
            12014962059279119808,
            11729274069130469628,
            14024853910770558621,
            10794592809739201699,
            4591412351669281830,
            4443533779034349939,
            5122371541606635158,
            4428046401013815517,
        ],
        vec![
            17360236418348383593,
            7136602285067754769,
            277975438643526457,
            13988366963637062310,
            11965422247792341277,
            13473116308090246711,
            9720315817616706606,
            2636590053094494344,
        ],
        vec![
            7108548395280314459,
            12447903413556513007,
            16516095244241258659,
            17495513749915422285,
            16188271785371370840,
            18135609589437029893,
            11711259525823976471,
            16680947892577840726,
        ],
        vec![
            1129304879239752775,
            18139328041392429210,
            6590139733972204606,
            16842393362184162587,
            7081222189249445142,
            9670603388459145355,
            9170128611777118820,
            5429443692103467539,
        ],
        vec![
            4815045248221734879,
            3014716148816528348,
            15231114635082323199,
            7413374795010683548,
            12084545366617579036,
            9103619689315494462,
            15845977628716689791,
            12049087827827906729,
        ],
        vec![
            11001734271556191863,
            5792364747427335632,
            17026075997810771139,
            3998225937108019800,
            1779015145730982444,
            4042960271256094210,
            6905577323187467150,
            4558133560710470099,
        ],
        vec![
            9470362143049275666,
            15050630567399234658,
            6477290068444969760,
            1950689046353772704,
            18337880567558499287,
            16153744492842911000,
            10420312895212917543,
            7243988142695285055,
        ],
        vec![
            12411888002945832209,
            8217010074140802182,
            2276794339879158233,
            7998145881836688847,
            1198631103694420174,
            3520712409374091016,
            9366100562799842596,
            5883351156761682750,
        ],
    ]
}

fn vector8() -> Vec<u64> {
    vec![
        5967034585494953246,
        1733514736420351156,
        2401463918407195129,
        3154881803474453214,
        16143176517113548940,
        3423508916817192534,
        18114954619118863327,
        14281169057397946455,
    ]
}

fn times(a: &Vec<Vec<u64>>, x: &Vec<u64>, p: u64) -> Vec<u64> {
    a.iter()
        .map(|row| {
            let mut s: u128 = 0;
            for (e, v) in row.iter().zip(x.iter()) {
                s = (s + (*e as u128) * (*v as u128)) % (p as u128);
            }
            s as u64
        })
        .collect()
}

#[test]
fn solve_8x8_fixture() {
    let a = matrix8();
    let b = vector8();
    let x = zp::solve(&a, &b, P).unwrap();
    assert_eq!(
        x,
        vec![
            3824785585352974503,
            18302955554254014472,
            16542358835553968996,
            2823049759788259690,
            2318543310909473196,
            13688369703899785013,
            16173263261885357154,
            13705729413267355427,
        ]
    );
    assert_eq!(times(&a, &x, P), b);
}

#[test]
fn solve_small_systems() {
    // x + y = 3, x - y = 1 (mod 7): x = 2, y = 1
    let a: Vec<Vec<u8>> = vec![vec![1, 1], vec![1, 6]];
    let b: Vec<u8> = vec![3, 1];
    assert_eq!(zp::solve(&a, &b, 7u8), Ok(vec![2, 1]));
    // a pivot has to be swapped into place
    let a: Vec<Vec<u32>> = vec![vec![0, 1, 0], vec![0, 0, 1], vec![1, 0, 0]];
    let b: Vec<u32> = vec![5, 6, 7];
    assert_eq!(zp::solve(&a, &b, 11u32), Ok(vec![7, 5, 6]));
    // the empty system
    let a: Vec<Vec<u64>> = vec![];
    let b: Vec<u64> = vec![];
    assert_eq!(zp::solve(&a, &b, 5u64), Ok(vec![]));
}

#[test]
fn solve_every_2x2_system_modulo_5() {
    let p: u8 = 5;
    for a00 in 0..p {
        for a01 in 0..p {
            for a10 in 0..p {
                for a11 in 0..p {
                    let a = vec![vec![a00, a01], vec![a10, a11]];
                    let det = (a00 as u32 * a11 as u32 + 25 - a01 as u32 * a10 as u32) % 5;
                    for b0 in 0..p {
                        let b = vec![b0, 3];
                        match zp::solve(&a, &b, p) {
                            Ok(x) => {
                                assert_ne!(det, 0);
                                for i in 0..2 {
                                    let s = (a[i][0] as u32 * x[0] as u32
                                        + a[i][1] as u32 * x[1] as u32)
                                        % 5;
                                    assert_eq!(s, b[i] as u32);
                                }
                            }
                            Err(e) => {
                                assert_eq!(e, KernelError::Singular);
                                assert_eq!(det, 0);
                            }
                        }
                    }
                }
            }
        }
    }
}

#[test]
fn solve_reports_singular_matrix() {
    let a: Vec<Vec<u64>> = vec![vec![1, 2], vec![2, 4]];
    let b: Vec<u64> = vec![1, 2];
    assert_eq!(zp::solve(&a, &b, 101u64), Err(KernelError::Singular));
    let z: Vec<Vec<u64>> = vec![vec![0]];
    assert_eq!(zp::solve(&z, &vec![0u64], 101u64), Err(KernelError::Singular));
}

#[test]
fn solve_reports_wrong_dimensions() {
    let a: Vec<Vec<u64>> = vec![vec![1, 2], vec![2, 5]];
    assert_eq!(zp::solve(&a, &vec![1u64], 101u64), Err(KernelError::DimensionMismatch));
    assert_eq!(zp::solve(&a, &vec![1u64, 2, 3], 101u64), Err(KernelError::DimensionMismatch));
    let ragged: Vec<Vec<u64>> = vec![vec![1, 2], vec![2]];
    assert_eq!(zp::solve(&ragged, &vec![1u64, 2], 101u64), Err(KernelError::DimensionMismatch));
    let wide: Vec<Vec<u64>> = vec![vec![1, 2, 3], vec![2, 5, 1]];
    assert_eq!(zp::solve(&wide, &vec![1u64, 2], 101u64), Err(KernelError::DimensionMismatch));
}
