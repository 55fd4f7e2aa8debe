use algoroutine::basic::{perform, ready, Perform, Ready};
use algoroutine::coroutine::{
    assert_effect, bind, fmap, map_effect, map_input, BindCoroutine, Coroutine, CoroutineState,
    MapCoroutine,
};

/// Suspends with `left - 1`, `left - 2`, ..., `0`, then completes with the sum
/// of the inputs it was resumed with.
struct Countdown {
    left: u32,
    sum: u32,
}

impl Countdown {
    fn new(left: u32) -> Self {
        Countdown { left, sum: 0 }
    }
}

impl Coroutine<u32, u32, u32> for Countdown {
    fn resumable(&self) -> bool {
        unreachable!()
    }

    fn resumes(&self, _: u32, _: CoroutineState<u32, u32>, _: Self) -> bool {
        unreachable!()
    }

    fn resume(&mut self, input: u32) -> CoroutineState<u32, u32> {
        self.sum += input;
        if self.left == 0 {
            CoroutineState::Complete(self.sum)
        } else {
            self.left -= 1;
            CoroutineState::Yielded(self.left)
        }
    }
}

#[derive(Debug, PartialEq)]
enum Wide {
    Number(u32),
    Text(String),
}

impl From<u32> for Wide {
    fn from(value: u32) -> Self {
        Wide::Number(value)
    }
}

impl From<String> for Wide {
    fn from(value: String) -> Self {
        Wide::Text(value)
    }
}

/// Drives `c` with `inputs` and collects what it handed back.
fn drive<I, Y, R, C: Coroutine<I, Y, R>>(c: &mut C, inputs: Vec<I>) -> (Vec<Y>, Option<R>) {
    let mut effects = Vec::new();
    for input in inputs {
        match c.resume(input) {
            CoroutineState::Yielded(effect) => effects.push(effect),
            CoroutineState::Complete(result) => return (effects, Some(result)),
        }
    }
    (effects, None)
}

#[test]
fn ready_completes_on_first_resume() {
    let mut c: Ready<u32, &str> = ready("done");
    match Coroutine::<(), u32, &str>::resume(&mut c, ()) {
        CoroutineState::Complete(result) => assert_eq!(result, "done"),
        CoroutineState::Yielded(_) => panic!("a ready computation suspended"),
    }
    assert!(c.value.is_none());
}

#[test]
fn perform_suspends_once_and_returns_the_answer() {
    let mut c: Perform<&str> = perform("ask");
    let (effects, result) = drive(&mut c, vec![0u32, 7]);
    assert_eq!(effects, vec!["ask"]);
    assert_eq!(result, Some(7));
    assert!(c.answered);
}

#[test]
fn perform_ignores_its_first_input() {
    let mut c: Perform<u8> = perform(1);
    assert!(matches!(c.resume(99u32), CoroutineState::Yielded(1)));
    assert!(matches!(c.resume(5u32), CoroutineState::Complete(5)));
}

#[test]
fn map_keeps_effects_and_maps_result() {
    let mut plain = Countdown::new(3);
    let (plain_effects, plain_result) = drive(&mut plain, vec![1, 2, 3, 4]);
    assert_eq!(plain_effects, vec![2, 1, 0]);
    assert_eq!(plain_result, Some(10));

    let mut mapped = fmap(Countdown::new(3), |sum: u32| sum * 2 + 1);
    let (effects, result) = drive(&mut mapped, vec![1, 2, 3, 4]);
    assert_eq!(effects, plain_effects);
    assert_eq!(result, Some(21));
    assert!(mapped.finish.is_none());
}

#[test]
fn map_of_ready_completes_at_once() {
    let source: Ready<(), u32> = ready(20);
    let mut mapped = fmap::<(), u8, u32, u32, _, _>(source, |n: u32| n + 1);
    assert!(matches!(mapped.resume(0), CoroutineState::Complete(21)));
}

#[test]
fn map_changes_the_result_type() {
    let mut mapped = fmap(Countdown::new(0), |sum: u32| format!("{sum}!"));
    let (effects, result) = drive(&mut mapped, vec![5]);
    assert!(effects.is_empty());
    assert_eq!(result, Some(String::from("5!")));
}

#[test]
fn map_method_is_fmap() {
    let mut mapped = Countdown::new(1).map(|sum: u32| sum + 100);
    let (effects, result) = drive(&mut mapped, vec![1, 1]);
    assert_eq!(effects, vec![0]);
    assert_eq!(result, Some(102));
}

#[test]
fn map_effect_converts_every_effect() {
    let mut wide = map_effect::<u32, Wide, u32, u32, Countdown>(Countdown::new(2));
    let (effects, result) = drive(&mut wide, vec![1, 1, 1]);
    assert_eq!(effects, vec![Wide::Number(1), Wide::Number(0)]);
    assert_eq!(result, Some(3));
}

#[test]
fn map_input_converts_every_input() {
    let mut adapted = map_input::<u32, u32, u8, u32, Countdown>(Countdown::new(2));
    let (effects, result) = drive(&mut adapted, vec![10u8, 20, 30]);
    assert_eq!(effects, vec![1, 0]);
    assert_eq!(result, Some(60));
}

#[test]
fn bind_concatenates_effects() {
    let mut chained = bind::<u32, String, Wide, _, _, u32, String, u32, _>(
        Countdown::new(2),
        |sum: u32| fmap(perform(format!("got {sum}")), |answer: u32| format!("{}", answer + 1)),
    );
    let (effects, result) = drive(&mut chained, vec![1, 2, 3, 4]);
    assert_eq!(
        effects,
        vec![Wide::Number(1), Wide::Number(0), Wide::Text(String::from("got 6"))]
    );
    assert_eq!(result, Some(String::from("5")));
    assert!(chained.make.is_none());
}

#[test]
fn bind_resumes_second_with_the_input_that_completed_the_first() {
    // The first computation completes on the input 7; the second one is made
    // and resumed with that same 7 at once, so it completes in the same call.
    let mut chained = bind::<u32, u32, u32, _, _, u32, u32, u32, _>(
        Countdown::new(0),
        |sum: u32| Countdown { left: 0, sum },
    );
    match chained.resume(7) {
        CoroutineState::Complete(result) => assert_eq!(result, 14),
        CoroutineState::Yielded(_) => panic!("nothing to suspend on"),
    }
}

#[test]
fn bind_of_ready_behaves_as_the_second_computation() {
    let first: Ready<u32, u32> = ready(2);
    let mut chained =
        bind::<u32, u32, u32, _, _, u32, u32, u32, _>(first, |n: u32| Countdown::new(n));
    let mut direct = Countdown::new(2);
    let inputs = vec![3, 4, 5];
    assert_eq!(drive(&mut chained, inputs.clone()), drive(&mut direct, inputs));
}

#[test]
fn bind_never_makes_the_second_before_the_first_completes() {
    let made = std::cell::Cell::new(false);
    let mut chained = bind::<u32, u32, u32, _, _, u32, u32, u32, _>(Countdown::new(2), |n: u32| {
        made.set(true);
        Countdown::new(n)
    });
    assert!(matches!(chained.resume(0), CoroutineState::Yielded(1)));
    assert!(!made.get());
    assert!(matches!(chained.resume(0), CoroutineState::Yielded(0)));
    assert!(!made.get());
    assert!(chained.rest.is_none());
    assert!(matches!(chained.resume(1), CoroutineState::Yielded(0)));
    assert!(made.get());
    assert!(chained.rest.is_some());
    assert!(matches!(chained.resume(2), CoroutineState::Complete(3)));
}

#[test]
fn and_then_method_is_bind() {
    let mut chained = BindCoroutine::<u32, Perform<String>, String, u32, u32, u32>::and_then::<Wide, _>(
        Countdown::new(1),
        |sum: u32| perform(format!("sum {sum}")),
    );
    let (effects, result) = drive(&mut chained, vec![1, 2, 9]);
    assert_eq!(effects, vec![Wide::Number(0), Wide::Text(String::from("sum 3"))]);
    assert_eq!(result, Some(9));
}

#[test]
fn assert_effect_hands_the_computation_back() {
    let mut c = assert_effect::<u32, u32, u32, _>(Countdown::new(1));
    let (effects, result) = drive(&mut c, vec![4, 5]);
    assert_eq!(effects, vec![0]);
    assert_eq!(result, Some(9));
}
