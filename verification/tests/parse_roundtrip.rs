use clubs_diamonds::expression::Expression;
use clubs_diamonds::number::Number;

// Parse `input` into an Expression, render it, and expect `expected_output`.
fn parse_test<N: Number, const C: usize>(input: &str, expected_output: &str) {
    let expr = input.parse::<Expression<N, C>>().unwrap();
    let output = expr.to_string();
    assert_eq!(expected_output, &output);
}

fn roundtrip_parse_test<N: Number, const C: usize>(input: &str) {
    parse_test::<N, C>(input, input);
}

#[test]
fn fromstr_parse_001() {
    roundtrip_parse_test::<i32, 1>("a");
}

#[test]
fn fromstr_parse_002() {
    roundtrip_parse_test::<i32, 1>("17");
}

#[test]
fn fromstr_parse_003() {
    roundtrip_parse_test::<i32, 1>("!a");
}

#[test]
fn fromstr_parse_004() {
    roundtrip_parse_test::<i32, 1>("!17");
}

#[test]
fn fromstr_parse_005() {
    roundtrip_parse_test::<i32, 1>("-a");
}

#[test]
fn fromstr_parse_006() {
    roundtrip_parse_test::<i32, 1>("-17");
}

#[test]
fn fromstr_parse_007() {
    roundtrip_parse_test::<i32, 1>("a*17");
}

#[test]
fn fromstr_parse_008() {
    roundtrip_parse_test::<i32, 1>("17*a");
}

#[test]
fn fromstr_parse_009() {
    roundtrip_parse_test::<i32, 1>("a/17");
}

#[test]
fn fromstr_parse_010() {
    roundtrip_parse_test::<i32, 1>("17/a");
}

#[test]
fn fromstr_parse_011() {
    roundtrip_parse_test::<i32, 1>("a%17");
}

#[test]
fn fromstr_parse_012() {
    roundtrip_parse_test::<i32, 1>("17%a");
}

#[test]
fn fromstr_parse_013() {
    roundtrip_parse_test::<i32, 1>("a+17");
}

#[test]
fn fromstr_parse_014() {
    roundtrip_parse_test::<i32, 1>("17+a");
}

#[test]
fn fromstr_parse_015() {
    roundtrip_parse_test::<i32, 1>("a-17");
}

#[test]
fn fromstr_parse_016() {
    roundtrip_parse_test::<i32, 1>("17-a");
}

#[test]
fn fromstr_parse_017() {
    roundtrip_parse_test::<i32, 1>("a<<17");
}

#[test]
fn fromstr_parse_018() {
    roundtrip_parse_test::<i32, 1>("17<<a");
}

#[test]
fn fromstr_parse_019() {
    roundtrip_parse_test::<i32, 1>("a>>17");
}

#[test]
fn fromstr_parse_020() {
    roundtrip_parse_test::<i32, 1>("17>>a");
}

#[test]
fn fromstr_parse_021() {
    roundtrip_parse_test::<i32, 1>("a&17");
}

#[test]
fn fromstr_parse_022() {
    roundtrip_parse_test::<i32, 1>("17&a");
}

#[test]
fn fromstr_parse_023() {
    roundtrip_parse_test::<i32, 1>("a^17");
}

#[test]
fn fromstr_parse_024() {
    roundtrip_parse_test::<i32, 1>("17^a");
}

#[test]
fn fromstr_parse_025() {
    roundtrip_parse_test::<i32, 1>("a|17");
}

#[test]
fn fromstr_parse_026() {
    roundtrip_parse_test::<i32, 1>("17|a");
}

#[test]
fn fromstr_parse_027() {
    roundtrip_parse_test::<i32, 1>("17|a+3");
}

#[test]
fn fromstr_parse_028() {
    roundtrip_parse_test::<i32, 1>("4<<9+a");
}

#[test]
fn fromstr_parse_029() {
    roundtrip_parse_test::<i32, 1>("!a*5");
}

#[test]
fn fromstr_parse_030() {
    roundtrip_parse_test::<i32, 1>("a*-5");
}

#[test]
fn fromstr_parse_031() {
    roundtrip_parse_test::<i32, 1>("-5/a");
}

#[test]
fn fromstr_parse_032() {
    roundtrip_parse_test::<i32, 1>("a%-a");
}

#[test]
fn fromstr_parse_033() {
    roundtrip_parse_test::<i32, 1>("a*3/5");
}

#[test]
fn fromstr_parse_034() {
    roundtrip_parse_test::<i32, 1>("a%3/5");
}

#[test]
fn fromstr_parse_035() {
    roundtrip_parse_test::<i32, 1>("8/8%1");
}

#[test]
fn fromstr_parse_036() {
    roundtrip_parse_test::<i32, 1>("a/4+1");
}

#[test]
fn fromstr_parse_037() {
    roundtrip_parse_test::<i32, 1>("2-9%2");
}

#[test]
fn fromstr_parse_038() {
    roundtrip_parse_test::<i32, 1>("a*a+a");
}

#[test]
fn fromstr_parse_039() {
    roundtrip_parse_test::<i32, 1>("3<<a+9");
}

#[test]
fn fromstr_parse_040() {
    roundtrip_parse_test::<i32, 1>("4+7>>a");
}

#[test]
fn fromstr_parse_041() {
    roundtrip_parse_test::<i32, 1>("a&1<<a");
}

#[test]
fn fromstr_parse_042() {
    roundtrip_parse_test::<i32, 1>("a>>4&2");
}

#[test]
fn fromstr_parse_043() {
    roundtrip_parse_test::<i32, 1>("a^a&3");
}

#[test]
fn fromstr_parse_044() {
    roundtrip_parse_test::<i32, 1>("3&a^5");
}

#[test]
fn fromstr_parse_045() {
    roundtrip_parse_test::<i32, 1>("a|a^5");
}

#[test]
fn fromstr_parse_046() {
    roundtrip_parse_test::<i32, 1>("a^5|3");
}

#[test]
fn fromstr_parse_047() {
    roundtrip_parse_test::<i32, 1>("1<<a+a*a");
}

#[test]
fn fromstr_parse_048() {
    roundtrip_parse_test::<i32, 1>("!0/a+!5/a+!18/a");
}

#[test]
fn fromstr_parse_049() {
    roundtrip_parse_test::<i32, 1>("155&a&4&1&2&9");
}

#[test]
fn fromstr_parse_050() {
    roundtrip_parse_test::<i32, 1>("0|0^0&0>>0<<0+0-0*0%0/0");
}

#[test]
fn fromstr_parse_051() {
    roundtrip_parse_test::<i32, 1>("!-!-!-4");
}

#[test]
fn fromstr_parse_052() {
    roundtrip_parse_test::<i32, 1>("!!!4");
}

#[test]
fn fromstr_parse_053() {
    roundtrip_parse_test::<i32, 1>("---4");
}

#[test]
fn fromstr_parse_054() {
    roundtrip_parse_test::<i32, 1>("a*(a+5)");
}

#[test]
fn fromstr_parse_055() {
    roundtrip_parse_test::<i32, 1>("a+(3|9)");
}

#[test]
fn fromstr_parse_056() {
    roundtrip_parse_test::<i32, 1>("!(a<<9>>4)");
}

#[test]
fn fromstr_parse_057() {
    roundtrip_parse_test::<i32, 1>("-(a<<9>>4)");
}

#[test]
fn fromstr_parse_058() {
    roundtrip_parse_test::<i32, 1>("1*(1/(1%(1-(1+(1<<(1>>(1&(1^(1|1)))))))))");
}

#[test]
fn fromstr_parse_059() {
    roundtrip_parse_test::<i32, 1>("4>>(a<<3)");
}

#[test]
fn fromstr_parse_060() {
    roundtrip_parse_test::<i32, 2>("a+b");
}

#[test]
fn fromstr_parse_061() {
    roundtrip_parse_test::<i32, 2>("a+b*b");
}

#[test]
fn fromstr_parse_062() {
    roundtrip_parse_test::<i32, 2>("a*a+b");
}

#[test]
fn fromstr_parse_063() {
    roundtrip_parse_test::<i32, 2>("a*(a+b)");
}

#[test]
fn fromstr_parse_064() {
    roundtrip_parse_test::<i32, 3>("c*(c<<c)");
}

#[test]
fn expression_parse_001() {
    roundtrip_parse_test::<i32, 1>("a");
}

#[test]
fn expression_parse_002() {
    roundtrip_parse_test::<i32, 1>("17");
}

#[test]
fn expression_parse_003() {
    roundtrip_parse_test::<i32, 1>("!a");
}

#[test]
fn expression_parse_004() {
    roundtrip_parse_test::<i32, 1>("!17");
}

#[test]
fn expression_parse_005() {
    roundtrip_parse_test::<i32, 1>("-a");
}

#[test]
fn expression_parse_006() {
    roundtrip_parse_test::<i32, 1>("-17");
}

#[test]
fn expression_parse_007() {
    roundtrip_parse_test::<i32, 1>("a*17");
}

#[test]
fn expression_parse_008() {
    roundtrip_parse_test::<i32, 1>("17*a");
}

#[test]
fn expression_parse_009() {
    roundtrip_parse_test::<i32, 1>("a/17");
}

#[test]
fn expression_parse_010() {
    roundtrip_parse_test::<i32, 1>("17/a");
}

#[test]
fn expression_parse_011() {
    roundtrip_parse_test::<i32, 1>("a%17");
}

#[test]
fn expression_parse_012() {
    roundtrip_parse_test::<i32, 1>("17%a");
}

#[test]
fn expression_parse_013() {
    roundtrip_parse_test::<i32, 1>("a+17");
}

#[test]
fn expression_parse_014() {
    roundtrip_parse_test::<i32, 1>("17+a");
}

#[test]
fn expression_parse_015() {
    roundtrip_parse_test::<i32, 1>("a-17");
}

#[test]
fn expression_parse_016() {
    roundtrip_parse_test::<i32, 1>("17-a");
}

#[test]
fn expression_parse_017() {
    roundtrip_parse_test::<i32, 1>("a<<17");
}

#[test]
fn expression_parse_018() {
    roundtrip_parse_test::<i32, 1>("17<<a");
}

#[test]
fn expression_parse_019() {
    roundtrip_parse_test::<i32, 1>("a>>17");
}

#[test]
fn expression_parse_020() {
    roundtrip_parse_test::<i32, 1>("17>>a");
}

#[test]
fn expression_parse_021() {
    roundtrip_parse_test::<i32, 1>("a&17");
}

#[test]
fn expression_parse_022() {
    roundtrip_parse_test::<i32, 1>("17&a");
}

#[test]
fn expression_parse_023() {
    roundtrip_parse_test::<i32, 1>("a^17");
}

#[test]
fn expression_parse_024() {
    roundtrip_parse_test::<i32, 1>("17^a");
}

#[test]
fn expression_parse_025() {
    roundtrip_parse_test::<i32, 1>("a|17");
}

#[test]
fn expression_parse_026() {
    roundtrip_parse_test::<i32, 1>("17|a");
}

#[test]
fn expression_parse_027() {
    roundtrip_parse_test::<i32, 1>("17|a+3");
}

#[test]
fn expression_parse_028() {
    roundtrip_parse_test::<i32, 1>("4<<9+a");
}

#[test]
fn expression_parse_029() {
    roundtrip_parse_test::<i32, 1>("!a*5");
}

#[test]
fn expression_parse_030() {
    roundtrip_parse_test::<i32, 1>("a*-5");
}

#[test]
fn expression_parse_031() {
    roundtrip_parse_test::<i32, 1>("-5/a");
}

#[test]
fn expression_parse_032() {
    roundtrip_parse_test::<i32, 1>("a%-a");
}

#[test]
fn expression_parse_033() {
    roundtrip_parse_test::<i32, 1>("a*3/5");
}

#[test]
fn expression_parse_034() {
    roundtrip_parse_test::<i32, 1>("a%3/5");
}

#[test]
fn expression_parse_035() {
    roundtrip_parse_test::<i32, 1>("8/8%1");
}

#[test]
fn expression_parse_036() {
    roundtrip_parse_test::<i32, 1>("a/4+1");
}

#[test]
fn expression_parse_037() {
    roundtrip_parse_test::<i32, 1>("2-9%2");
}

#[test]
fn expression_parse_038() {
    roundtrip_parse_test::<i32, 1>("a*a+a");
}

#[test]
fn expression_parse_039() {
    roundtrip_parse_test::<i32, 1>("3<<a+9");
}

#[test]
fn expression_parse_040() {
    roundtrip_parse_test::<i32, 1>("4+7>>a");
}

#[test]
fn expression_parse_041() {
    roundtrip_parse_test::<i32, 1>("a&1<<a");
}

#[test]
fn expression_parse_042() {
    roundtrip_parse_test::<i32, 1>("a>>4&2");
}

#[test]
fn expression_parse_043() {
    roundtrip_parse_test::<i32, 1>("a^a&3");
}

#[test]
fn expression_parse_044() {
    roundtrip_parse_test::<i32, 1>("3&a^5");
}

#[test]
fn expression_parse_045() {
    roundtrip_parse_test::<i32, 1>("a|a^5");
}

#[test]
fn expression_parse_046() {
    roundtrip_parse_test::<i32, 1>("a^5|3");
}

#[test]
fn expression_parse_047() {
    roundtrip_parse_test::<i32, 1>("1<<a+a*a");
}

#[test]
fn expression_parse_048() {
    roundtrip_parse_test::<i32, 1>("!0/a+!5/a+!18/a");
}

#[test]
fn expression_parse_049() {
    roundtrip_parse_test::<i32, 1>("155&a&4&1&2&9");
}

#[test]
fn expression_parse_050() {
    roundtrip_parse_test::<i32, 1>("0|0^0&0>>0<<0+0-0*0%0/0");
}

#[test]
fn expression_parse_051() {
    roundtrip_parse_test::<i32, 1>("!-!-!-4");
}

#[test]
fn expression_parse_052() {
    roundtrip_parse_test::<i32, 1>("!!!4");
}

#[test]
fn expression_parse_053() {
    roundtrip_parse_test::<i32, 1>("---4");
}

#[test]
fn expression_parse_054() {
    roundtrip_parse_test::<i32, 1>("a*(a+5)");
}

#[test]
fn expression_parse_055() {
    roundtrip_parse_test::<i32, 1>("a+(3|9)");
}

#[test]
fn expression_parse_056() {
    roundtrip_parse_test::<i32, 1>("!(a<<9>>4)");
}

#[test]
fn expression_parse_057() {
    roundtrip_parse_test::<i32, 1>("-(a<<9>>4)");
}

#[test]
fn expression_parse_058() {
    roundtrip_parse_test::<i32, 1>("1*(1/(1%(1-(1+(1<<(1>>(1&(1^(1|1)))))))))");
}

#[test]
fn expression_parse_059() {
    roundtrip_parse_test::<i32, 1>("4>>(a<<3)");
}

#[test]
fn expression_parse_060() {
    roundtrip_parse_test::<i32, 2>("a+b");
}

#[test]
fn expression_parse_061() {
    roundtrip_parse_test::<i32, 2>("a+b*b");
}

#[test]
fn expression_parse_062() {
    roundtrip_parse_test::<i32, 2>("a*a+b");
}

#[test]
fn expression_parse_063() {
    roundtrip_parse_test::<i32, 2>("a*(a+b)");
}

#[test]
fn expression_parse_064() {
    roundtrip_parse_test::<i32, 3>("c*(c<<c)");
}
