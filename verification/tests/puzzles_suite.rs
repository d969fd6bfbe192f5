use codekata::puzzles::Solution;

#[test]
fn replace_elements_case_1() {
    let input: Vec<i32> = vec![17, 18, 5, 4, 6, 1];
    let output: Vec<i32> = vec![18, 6, 6, 6, 1, -1];
    assert_eq!(Solution::replace_elements(input), output);
}

#[test]
fn is_subsequence_case_1() {
    let s: String = "abc".to_string();
    let t: String = "ahbgdc".to_string();
    assert_eq!(Solution::is_subsequence(s, t), true);
}

#[test]
fn is_subsequence_case_2() {
    let s: String = "axc".to_string();
    let t: String = "ahbgdc".to_string();
    assert_eq!(Solution::is_subsequence(s, t), false);
}

#[test]
fn is_subsequence_case_3() {
    let s: String = "".to_string();
    let t: String = "ahbgdc".to_string();
    assert_eq!(Solution::is_subsequence(s, t), true);
}

#[test]
fn length_of_last_word() {
    let word1: String = "Hello World".to_string();
    let word2: String = "    fly me   to     the   moon   ".to_string();
    assert_eq!(Solution::length_of_last_word(word1), 5);
    assert_eq!(Solution::length_of_last_word(word2), 4);
}

#[test]
fn two_sum() {
    let input = vec![2, 7, 11, 15];
    let expected = vec![0, 1];

    assert_eq!(Solution::two_sum(input, 9), expected);
}

#[test]
fn longest_common_prefix() {
    let words1 = vec![
        "flower".to_string(),
        "flow".to_string(),
        "flight".to_string(),
    ];
    let words2 = vec!["dog".to_string(), "racecar".to_string(), "car".to_string()];

    assert_eq!(Solution::longest_common_prefix(words1), "fl");
    assert_eq!(Solution::longest_common_prefix(words2), "");
}

#[test]
fn pascal_triangle() {
    let expected = vec![
        vec![1],
        vec![1, 1],
        vec![1, 2, 1],
        vec![1, 3, 3, 1],
        vec![1, 4, 6, 4, 1],
    ];

    assert_eq!(Solution::generate_pascal_triangle(5), expected);
}

#[test]
fn pascal_triangle_empty() {
    let expected: Vec<Vec<i32>> = Vec::new();
    assert_eq!(Solution::generate_pascal_triangle(0), expected);
}

#[test]
fn two_sum_without_a_pair() {
    let input = vec![1, 2, 3];
    let expected: Vec<i32> = Vec::new();
    assert_eq!(Solution::two_sum(input, 100), expected);
}

#[test]
fn remove_element_keeps_the_rest_in_order() {
    let mut nums = vec![0, 1, 2, 2, 3, 0, 4, 2];
    let kept = Solution::remove_element(&mut nums, 2);
    assert_eq!(kept, 5);
    assert_eq!(&nums[0..5], &[0, 1, 3, 0, 4]);
}

#[test]
fn group_anagrams_by_first_appearance() {
    let input = vec![
        "eat".to_string(),
        "tea".to_string(),
        "tan".to_string(),
        "ate".to_string(),
        "nat".to_string(),
        "bat".to_string(),
    ];
    let expected = vec![
        vec!["eat".to_string(), "tea".to_string(), "ate".to_string()],
        vec!["tan".to_string(), "nat".to_string()],
        vec!["bat".to_string()],
    ];
    assert_eq!(Solution::group_anagrams(input), expected);
}

#[test]
fn longest_common_prefix_of_one_word() {
    let words = vec!["alone".to_string()];
    assert_eq!(Solution::longest_common_prefix(words), "alone");
}

#[test]
fn pascal_triangle_largest_allowed() {
    let triangle = Solution::generate_pascal_triangle(32);
    assert_eq!(triangle.len(), 32);
    let last = &triangle[31];
    assert_eq!(last.len(), 32);
    assert_eq!(last[0], 1);
    assert_eq!(last[31], 1);
    assert_eq!(last[1], 31);
    assert_eq!(last[15], 300540195);
}

#[test]
fn group_anagrams_keeps_every_copy() {
    let input = vec![
        "ab".to_string(),
        "ba".to_string(),
        "ab".to_string(),
    ];
    let expected = vec![vec![
        "ab".to_string(),
        "ba".to_string(),
        "ab".to_string(),
    ]];
    assert_eq!(Solution::group_anagrams(input), expected);
}

#[test]
fn replace_elements_single() {
    assert_eq!(Solution::replace_elements(vec![7]), vec![-1]);
}
