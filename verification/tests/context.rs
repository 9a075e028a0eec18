use octocode::blocks::DocumentBlock;

#[test]
fn test_context_optimization() {
    // Create a DocumentBlock with context
    let doc_block = DocumentBlock {
        path: "test.md".to_string(),
        title: "Test Section".to_string(),
        content: "This is the actual content.".to_string(),
        context: vec![
            "# Main Document".to_string(),
            "## Authentication".to_string(),
            "### JWT Implementation".to_string(),
        ],
        level: 3,
        start_line: 10,
        end_line: 15,
        hash: "test_hash".to_string(),
        distance: None,
    };

    // Test context merging for embedding
    let embedding_text = if !doc_block.context.is_empty() {
        format!("{}\n\n{}", doc_block.context.join("\n"), doc_block.content)
    } else {
        doc_block.content.clone()
    };

    // Verify the embedding text contains context
    assert!(embedding_text.contains("# Main Document"));
    assert!(embedding_text.contains("## Authentication"));
    assert!(embedding_text.contains("### JWT Implementation"));
    assert!(embedding_text.contains("This is the actual content."));

    // Verify memory efficiency
    let storage_size = doc_block.content.len();
    let context_size: usize = doc_block.context.iter().map(|s| s.len()).sum();
    let total_size = storage_size + context_size;
    let old_approach_size = embedding_text.len() + doc_block.content.len();

    // New approach should be more efficient
    assert!(total_size < old_approach_size);

    println!("New approach size: {} bytes", total_size);
    println!("Old approach size: {} bytes", old_approach_size);
    println!(
        "Memory savings: {}%",
        ((old_approach_size - total_size) as f64 / old_approach_size as f64 * 100.0) as i32
    );
}

#[test]
fn test_empty_context() {
    let doc_block = DocumentBlock {
        path: "test.md".to_string(),
        title: "Test Section".to_string(),
        content: "Content without context.".to_string(),
        context: Vec::new(), // Empty context
        level: 1,
        start_line: 0,
        end_line: 5,
        hash: "test_hash".to_string(),
        distance: None,
    };

    // Test context merging with empty context
    let embedding_text = if !doc_block.context.is_empty() {
        format!("{}\n\n{}", doc_block.context.join("\n"), doc_block.content)
    } else {
        doc_block.content.clone()
    };

    // Should just be the content
    assert_eq!(embedding_text, doc_block.content);
}
