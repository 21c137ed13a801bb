use qvis::matching::maximum_matching;

fn costs_of(rows: Vec<Vec<Option<i64>>>) -> Vec<Vec<Option<i64>>> {
    rows
}

#[test]
fn example() {
    assert_eq!(
        maximum_matching(&costs_of(vec![
            vec![Some(-8), Some(-4), Some(-7)],
            vec![Some(-6), Some(-2), Some(-3)],
            vec![Some(-9), Some(-4), Some(-8)],
        ])),
        Some(vec![0, 2, 1])
    );

    assert_eq!(
        maximum_matching(&costs_of(vec![
            vec![None, Some(-4), Some(-7)],
            vec![Some(-6), Some(-2), Some(-3)],
            vec![Some(-9), Some(-4), Some(-8)],
        ])),
        Some(vec![1, 2, 0])
    );

    assert_eq!(
        maximum_matching(&costs_of(vec![
            vec![None, Some(-4), Some(-7)],
            vec![None, Some(-2), Some(-3)],
            vec![None, Some(-4), Some(-8)],
        ])),
        None
    );

    assert_eq!(
        maximum_matching(&costs_of(vec![
            vec![Some(100), Some(110), Some(90)],
            vec![Some(95), Some(130), Some(75)],
            vec![Some(95), Some(140), Some(65)],
        ])),
        Some(vec![2, 0, 1])
    );
}

#[test]
fn tightness_not_through_epsilon() {
    // Fractional costs carried over at a fixed scale of 1e8 per unit.
    let rows: Vec<Vec<f64>> = vec![
        vec![
            3052265.763914855,
            3051048.084988203,
            45.073006316285735,
            1294345.8137656434,
            5898072.435256591,
            3052675.829981847,
            1552774.9128819676,
            1552728.4503640207,
        ],
        vec![
            1156951.093342854,
            1.134599964850414,
            7649154.094641632,
            555734.4444284381,
            1157008.9535065796,
            7649155.83921888,
            7649157.015021505,
            60.438339297708175,
        ],
        vec![
            5319458.202466325,
            926169.1991026127,
            926220.7540678747,
            4295463.453554934,
            4295465.153555874,
            97878.14460299305,
            704.6096895474138,
            4295464.157698463,
        ],
        vec![
            63461.42078957725,
            36361925.9918591,
            47703556.83654001,
            11278226.089127451,
            52.97836939994223,
            36361927.55345198,
            36361925.568258174,
            11278278.652790288,
        ],
        vec![
            7517468.676308601,
            7517450.04143544,
            18214.102036218326,
            4310.718371037171,
            51338675.91309436,
            58874333.48451123,
            51338675.4767505,
            51338699.67340185,
        ],
        vec![
            1147.390857123671,
            6201064.561333844,
            40616550.60643597,
            40616608.0936402,
            591904.5930478168,
            6201064.099499533,
            47409452.10109716,
            40617694.52826714,
        ],
        vec![
            2676939.97975629,
            1677575.6585671527,
            2651885.0775300157,
            7006362.661739242,
            2676942.307682288,
            461.4718209297044,
            2651920.0537068467,
            2676938.803695033,
        ],
        vec![
            575002.1259626774,
            92.45961702099193,
            439769.85429266735,
            575000.5004559389,
            8948930.829434488,
            8949021.402547736,
            8948930.640305543,
            9963609.14817566,
        ],
    ];
    let costs: Vec<Vec<Option<i64>>> = rows
        .iter()
        .map(|r| r.iter().map(|v| Some((v * 1e8) as i64)).collect())
        .collect();
    assert_eq!(maximum_matching(&costs), Some(vec![4, 1, 0, 2, 5, 6, 3, 7]));
}
