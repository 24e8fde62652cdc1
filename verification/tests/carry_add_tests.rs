use digits::carry_add::{CappedAdd, Sign, SignNum};

#[test]
fn it_works() {
  let nine: SignNum<u64> = SignNum {
    num: 9,
    sign: Sign::Plus,
  };
  let bnine = nine.clone();
  let result = nine.capped_add(bnine, (0,10));
  assert_eq!(result.sign_num.num, 8);
  assert_eq!(result.carry.unwrap().num, 1);
}
